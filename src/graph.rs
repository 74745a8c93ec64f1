use vstd::prelude::*;
use crate::engine::{Op, Tape, Value};
use crate::topo::{Step, lemma_order_len, lemma_reaches_operand, lemma_reaches_trans};
use petgraph::dot::Dot;
use petgraph::graph::{Graph, NodeIndex};

verus! {

/// Some edge of `edges` runs from operand `from` to consumer `to`.
pub open spec fn has_edge(edges: Seq<Step>, from: int, to: int) -> bool {
    exists|a: int| 0 <= a < edges.len() && (#[trigger] edges[a]).operand == from && edges[a].node == to
}

/// The text that labels the edges into a node produced by `op`.
pub open spec fn op_text(op: Option<Op>) -> Seq<char> {
    match op {
        None => Seq::empty(),
        Some(Op::Add) => "+"@,
        Some(Op::Mul) => "*"@,
        Some(Op::Pow) => "^"@,
        Some(Op::PowNeg) => "^"@,
        Some(Op::Tanh) => "tanh"@,
        Some(Op::Exp) => "exp"@,
        Some(Op::Relu) => "ReLU"@,
    }
}

/// Position of handle `h` in `ns`.
pub open spec fn index_in(ns: Seq<usize>, h: usize) -> usize {
    (choose|k: int| 0 <= k < ns.len() && ns[k] == h) as usize
}

/// The text petgraph's `Dot` writes for a directed graph whose nodes carry
/// `labels` and whose edges, in order, are `(source, target, label)`.
pub uninterp spec fn dot_of(labels: Seq<Seq<char>>, edges: Seq<(usize, usize, Seq<char>)>) -> Seq<char>;

impl Tape {
    /// `nodes` and `edges` describe the graph under `root`: `nodes` are the
    /// nodes reached from it, in backward order, and `edges` hold each pair
    /// (operand, consumer) among them exactly once.
    pub open spec fn is_trace(&self, root: int, nodes: Seq<usize>, edges: Seq<Step>) -> bool {
        &&& self.is_backward_order(root, nodes)
        &&& forall|a: int|
            0 <= a < edges.len() ==> {
                let e = #[trigger] edges[a];
                &&& e.node < self.len()
                &&& self.reaches(root, e.node as int)
                &&& e.slot < self.prev_of(e.node as int).len()
                &&& e.operand == self.prev_of(e.node as int)[e.slot as int]
            }
        &&& forall|c: int, j: int|
            0 <= c < self.len() && self.reaches(root, c) && 0 <= j < self.prev_of(c).len() ==> #[trigger] has_edge(
                edges,
                self.prev_of(c)[j] as int,
                c,
            )
        &&& forall|a: int, b: int|
            0 <= a < b < edges.len() ==> (#[trigger] edges[a]).operand != (#[trigger] edges[b]).operand
                || edges[a].node != edges[b].node
    }
}

/// The label text of the edges into a node produced by `op`.
pub fn op_symbol(op: Option<Op>) -> (r: String)
    ensures
        r@ == op_text(op),
{
    match op {
        None => String::new(),
        Some(Op::Add) => "+".to_string(),
        Some(Op::Mul) => "*".to_string(),
        Some(Op::Pow) => "^".to_string(),
        Some(Op::PowNeg) => "^".to_string(),
        Some(Op::Tanh) => "tanh".to_string(),
        Some(Op::Exp) => "exp".to_string(),
        Some(Op::Relu) => "ReLU".to_string(),
    }
}

/// The nodes reached from `root` and the edges among them, each edge once.
pub fn trace(tape: &Tape, root: &Value) -> (r: (Vec<usize>, Vec<Step>))
    requires
        tape.wf(),
        root.valid(tape),
    ensures
        tape.is_trace(root.id as int, r.0@, r.1@),
        r.1@.len() <= 2 * r.0@.len(),
{
    let order = root.backward_order(tape);
    let mut edges: Vec<Step> = Vec::new();
    let mut idx: usize = 0;
    while idx < order.len()
        invariant
            tape.wf(),
            root.valid(tape),
            tape.is_backward_order(root.id as int, order@),
            0 <= idx <= order@.len(),
            edges@.len() <= 2 * idx,
            forall|a: int|
                0 <= a < edges@.len() ==> {
                    let e = #[trigger] edges@[a];
                    &&& e.node < tape.len()
                    &&& tape.reaches(root.id as int, e.node as int)
                    &&& e.slot < tape.prev_of(e.node as int).len()
                    &&& e.operand == tape.prev_of(e.node as int)[e.slot as int]
                },
            forall|a: int| 0 <= a < edges@.len() && idx < order@.len() ==> (#[trigger] edges@[a]).node > order@[idx as int],
            forall|x: int, j: int|
                0 <= x < idx && 0 <= j < tape.prev_of(order@[x] as int).len() ==> #[trigger] has_edge(
                    edges@,
                    tape.prev_of(order@[x] as int)[j] as int,
                    order@[x] as int,
                ),
            forall|a: int, b: int|
                0 <= a < b < edges@.len() ==> (#[trigger] edges@[a]).operand != (#[trigger] edges@[b]).operand
                    || edges@[a].node != edges@[b].node,
        decreases order@.len() - idx,
    {
        let c = order[idx];
        assert(c < tape.len() && tape.reaches(root.id as int, c as int));
        let prev = &tape.nodes[c].prev;
        assert(prev@.len() <= 2) by {
            assert(tape.prev_of(c as int).len() == crate::engine::arity(tape.op_of(c as int)));
        }
        let ghost base = edges@;
        if prev.len() >= 1 {
            edges.push(Step { node: c, slot: 0, operand: prev[0] });
        }
        if prev.len() == 2 && prev[1] != prev[0] {
            edges.push(Step { node: c, slot: 1, operand: prev[1] });
        }
        assert forall|a: int| 0 <= a < base.len() implies edges@[a] == base[a] by {}
        assert forall|x: int, j: int|
            0 <= x < idx + 1 && 0 <= j < tape.prev_of(order@[x] as int).len() implies #[trigger] has_edge(
                edges@,
                tape.prev_of(order@[x] as int)[j] as int,
                order@[x] as int,
            ) by {
            if x == idx {
                if j == 0 || prev@[1] == prev@[0] {
                    assert(edges@[base.len() as int].operand == prev@[0]);
                } else {
                    assert(edges@[edges@.len() - 1].operand == prev@[1]);
                }
            } else {
                assert(has_edge(base, tape.prev_of(order@[x] as int)[j] as int, order@[x] as int));
                let a = choose|a: int|
                    0 <= a < base.len() && (#[trigger] base[a]).operand == tape.prev_of(order@[x] as int)[j]
                        && base[a].node == order@[x];
                assert(edges@[a] == base[a]);
            }
        }
        assert forall|a: int, b: int|
            0 <= a < b < edges@.len() implies (#[trigger] edges@[a]).operand != (#[trigger] edges@[b]).operand
                || edges@[a].node != edges@[b].node by {
            if b >= base.len() && a < base.len() {
                assert(edges@[a] == base[a]);
            }
            if b < base.len() {
                assert(edges@[a] == base[a]);
                assert(edges@[b] == base[b]);
            }
        }
        assert forall|a: int| 0 <= a < edges@.len() && idx + 1 < order@.len() implies (#[trigger] edges@[a]).node > order@[idx + 1] by {
            assert(order@[idx as int] > order@[idx + 1]);
            if a < base.len() {
                assert(edges@[a] == base[a]);
            }
        }
        idx = idx + 1;
    }
    assert forall|cc: int, j: int|
        0 <= cc < tape.len() && tape.reaches(root.id as int, cc) && 0 <= j < tape.prev_of(cc).len() implies #[trigger] has_edge(
            edges@,
            tape.prev_of(cc)[j] as int,
            cc,
        ) by {
        let x = choose|x: int| 0 <= x < order@.len() && #[trigger] order@[x] == cc;
        assert(has_edge(edges@, tape.prev_of(order@[x] as int)[j] as int, order@[x] as int));
    }
    (order, edges)
}

/// Relies on petgraph: `Graph::add_node` and `Graph::add_edge` build a directed
/// graph with these node and edge weights, and the `Display` of `dot::Dot`
/// writes it as text, a function of the graph alone. `add_node` and `add_edge`
/// panic past `u32::MAX` items or on a missing node, which `requires` excludes.
#[verifier::external_body]
fn render_dot(labels: Vec<String>, edges: Vec<(usize, usize, String)>) -> (r: String)
    requires
        labels@.len() < u32::MAX,
        edges@.len() < u32::MAX,
        forall|k: int| 0 <= k < edges@.len() ==> (#[trigger] edges@[k]).0 < labels@.len() && edges@[k].1 < labels@.len(),
    ensures
        r@ == dot_of(
            labels@.map_values(|s: String| s@),
            edges@.map_values(|e: (usize, usize, String)| (e.0, e.1, e.2@)),
        ),
{
    let mut g = Graph::<String, String>::new();
    let mut ids: Vec<NodeIndex> = Vec::new();
    for l in labels {
        ids.push(g.add_node(l));
    }
    for (a, b, w) in edges {
        g.add_edge(ids[a], ids[b], w);
    }
    format!("{}", Dot::new(&g))
}

/// The graph under `root` in Graphviz's dot language: one node for each node
/// reached from `root`, labelled `labels[handle]`, and one edge from each
/// operand to each consumer among them, labelled with the consumer's rule.
pub fn draw_dot(tape: &Tape, root: &Value, labels: &Vec<String>) -> (r: String)
    requires
        tape.wf(),
        root.valid(tape),
        labels@.len() == tape.len(),
        tape.len() < 0x7fff_ffff,
    ensures
        exists|nodes: Seq<usize>, edges: Seq<Step>|
            {
                &&& tape.is_trace(root.id as int, nodes, edges)
                &&& r@ == dot_of(
                    nodes.map_values(|n: usize| labels@[n as int]@),
                    edges.map_values(|e: Step| (index_in(nodes, e.operand), index_in(nodes, e.node), op_text(tape.op_of(e.node as int)))),
                )
            },
{
    let (nodes, edges) = trace(tape, root);
    proof {
        lemma_order_len(tape, root.id as int, nodes@);
    }
    let len = tape.size();
    let mut pos: Vec<usize> = Vec::new();
    while pos.len() < len
        invariant
            len == tape.len(),
            pos@.len() <= len,
        decreases len - pos@.len(),
    {
        pos.push(0);
    }
    let mut node_labels: Vec<String> = Vec::new();
    let mut k: usize = 0;
    while k < nodes.len()
        invariant
            tape.is_backward_order(root.id as int, nodes@),
            labels@.len() == tape.len(),
            pos@.len() == tape.len(),
            0 <= k <= nodes@.len(),
            node_labels@.len() == k,
            forall|a: int| 0 <= a < k ==> #[trigger] node_labels@[a]@ == labels@[nodes@[a] as int]@,
            forall|a: int| 0 <= a < k ==> pos@[#[trigger] nodes@[a] as int] == a,
        decreases nodes@.len() - k,
    {
        let n = nodes[k];
        assert(n < tape.len());
        pos.set(n, k);
        node_labels.push(labels[n].clone());
        assert forall|a: int| 0 <= a < k + 1 implies pos@[#[trigger] nodes@[a] as int] == a by {
            if a < k {
                assert(nodes@[a] > nodes@[k as int]);
            }
        }
        k = k + 1;
    }
    let mut items: Vec<(usize, usize, String)> = Vec::new();
    let mut m: usize = 0;
    while m < edges.len()
        invariant
            tape.wf(),
            tape.is_trace(root.id as int, nodes@, edges@),
            pos@.len() == tape.len(),
            forall|a: int| 0 <= a < nodes@.len() ==> pos@[#[trigger] nodes@[a] as int] == a,
            0 <= m <= edges@.len(),
            items@.len() == m,
            forall|a: int|
                0 <= a < m ==> {
                    let it = #[trigger] items@[a];
                    &&& it.0 == index_in(nodes@, edges@[a].operand)
                    &&& it.1 == index_in(nodes@, edges@[a].node)
                    &&& it.2@ == op_text(tape.op_of(edges@[a].node as int))
                    &&& it.0 < nodes@.len()
                    &&& it.1 < nodes@.len()
                },
        decreases edges@.len() - m,
    {
        let e = edges[m];
        proof {
            let ee = edges@[m as int];
            lemma_reaches_operand(tape, ee.node as int, ee.slot as int);
            lemma_reaches_trans(tape, root.id as int, ee.node as int, ee.operand as int);
            assert(tape.prev_of(ee.node as int)[ee.slot as int] < ee.node);
        }
        let ghost fk = choose|a: int| 0 <= a < nodes@.len() && #[trigger] nodes@[a] == e.operand;
        let ghost tk = choose|a: int| 0 <= a < nodes@.len() && #[trigger] nodes@[a] == e.node;
        assert(pos@[e.operand as int] == fk);
        assert(pos@[e.node as int] == tk);
        assert(index_in(nodes@, e.operand) == fk) by {
            let q = choose|q: int| 0 <= q < nodes@.len() && nodes@[q] == e.operand;
            if q < fk { assert(nodes@[q] > nodes@[fk]); }
            if q > fk { assert(nodes@[fk] > nodes@[q]); }
        }
        assert(index_in(nodes@, e.node) == tk) by {
            let q = choose|q: int| 0 <= q < nodes@.len() && nodes@[q] == e.node;
            if q < tk { assert(nodes@[q] > nodes@[tk]); }
            if q > tk { assert(nodes@[tk] > nodes@[q]); }
        }
        let sym = op_symbol(tape.nodes[e.node].op);
        items.push((pos[e.operand], pos[e.node], sym));
        m = m + 1;
    }
    let ghost nl = node_labels@;
    let ghost it = items@;
    let r = render_dot(node_labels, items);
    assert(nl.map_values(|s: String| s@) =~= nodes@.map_values(|n: usize| labels@[n as int]@));
    assert(it.map_values(|e: (usize, usize, String)| (e.0, e.1, e.2@)) =~= edges@.map_values(
        |e: Step| (index_in(nodes@, e.operand), index_in(nodes@, e.node), op_text(tape.op_of(e.node as int))),
    ));
    r
}

} // verus!
