use vstd::prelude::*;
use crate::engine::{Op, Tape, Value};

verus! {

/// Position in the graph of the running sum after `k + 1` products, when the
/// `m` products of a neuron start at node `o` and the sums follow them.
pub open spec fn acc_at(o: int, m: int, k: int) -> int {
    if k == 0 {
        o
    } else {
        o + m + k - 1
    }
}

/// All handles of `vs` name nodes of `tape`.
pub open spec fn all_valid(vs: Seq<Value>, tape: &Tape) -> bool {
    forall|k: int| 0 <= k < vs.len() ==> (#[trigger] vs[k]).valid(tape)
}

/// A neuron: one weight per input, a bias, and whether a ReLU follows.
pub struct Neuron {
    pub w: Vec<Value>,
    pub b: Value,
    pub nonlin: bool,
}

/// Neurons sharing one input.
pub struct Layer {
    pub neurons: Vec<Neuron>,
}

/// Layers, each of them applied to the network's input.
pub struct MLP {
    pub layers: Vec<Layer>,
}

/// `t` extends `s`, and handles valid in `s` stay valid in `t`.
proof fn lemma_extends_valid(s: &Tape, t: &Tape, vs: Seq<Value>)
    requires
        t.extends(s),
        all_valid(vs, s),
    ensures
        all_valid(vs, t),
{
}

/// `ps` are leaves of `after` without a constant, none of them in `before`,
/// by strictly increasing handle, so that no two of them are the same node.
pub open spec fn fresh_leaves(ps: Seq<Value>, before: &Tape, after: &Tape) -> bool {
    &&& forall|k: int|
        0 <= k < ps.len() ==> before.len() <= (#[trigger] ps[k]).id && after.node_is(ps[k].id as int, None, seq![], None)
    &&& forall|a: int, b: int| 0 <= a < b < ps.len() ==> (#[trigger] ps[a]).id < (#[trigger] ps[b]).id
}

/// Fresh leaves made one batch after another are fresh leaves together.
proof fn lemma_fresh_concat(p1: Seq<Value>, p2: Seq<Value>, t0: &Tape, t1: &Tape, t2: &Tape)
    requires
        t1.extends(t0),
        t2.extends(t1),
        fresh_leaves(p1, t0, t1),
        fresh_leaves(p2, t1, t2),
    ensures
        fresh_leaves(p1 + p2, t0, t2),
{
    let p = p1 + p2;
    assert forall|k: int| 0 <= k < p.len() implies t0.len() <= (#[trigger] p[k]).id && t2.node_is(p[k].id as int, None, seq![], None) by {
        if k < p1.len() {
            assert(p[k] == p1[k]);
            assert(t1.node_is(p1[k].id as int, None, seq![], None));
            assert(t2.nodes@[p1[k].id as int] == t1.nodes@[p1[k].id as int]);
        } else {
            assert(p[k] == p2[k - p1.len()]);
        }
    }
    assert forall|a: int, b: int| 0 <= a < b < p.len() implies (#[trigger] p[a]).id < (#[trigger] p[b]).id by {
        if b < p1.len() {
            assert(p[a] == p1[a] && p[b] == p1[b]);
        } else if a < p1.len() {
            assert(p[a] == p1[a] && p[b] == p2[b - p1.len()]);
            assert(t1.node_is(p1[a].id as int, None, seq![], None));
        } else {
            assert(p[a] == p2[a - p1.len()] && p[b] == p2[b - p1.len()]);
        }
    }
}

/// A forward pass built in `t1` stays built in any extension of it.
proof fn lemma_built_stays(n: Neuron, x: Seq<Value>, t1: &Tape, t2: &Tape, r: Value)
    requires
        t2.extends(t1),
        n.built(x, t1, r),
    ensures
        n.built(x, t2, r),
{
    let o = r.id + 1 - n.span(x);
    let m = n.pairs(x);
    assert forall|k: int| 0 <= k < m implies t2.node_is(o + k, Some(Op::Mul), seq![(#[trigger] n.w@[k]).id, x[k].id], None) by {
        assert(t1.node_is(o + k, Some(Op::Mul), seq![n.w@[k].id, x[k].id], None));
        assert(t2.nodes@[o + k] == t1.nodes@[o + k]);
    }
    assert forall|k: int| 1 <= k < m implies t2.node_is(
        #[trigger] acc_at(o, m, k),
        Some(Op::Add),
        seq![acc_at(o, m, k - 1) as usize, (o + k) as usize],
        None,
    ) by {
        assert(t1.node_is(acc_at(o, m, k), Some(Op::Add), seq![acc_at(o, m, k - 1) as usize, (o + k) as usize], None));
        assert(t2.nodes@[acc_at(o, m, k)] == t1.nodes@[acc_at(o, m, k)]);
    }
    assert(t2.nodes@[o + 2 * m - 1] == t1.nodes@[o + 2 * m - 1]);
    if n.nonlin {
        assert(t2.nodes@[o + 2 * m] == t1.nodes@[o + 2 * m]);
    }
}

impl Neuron {
    pub open spec fn valid(&self, tape: &Tape) -> bool {
        all_valid(self.w@, tape) && self.b.valid(tape)
    }

    /// Number of (weight, input) pairs a forward pass over `x` multiplies.
    pub open spec fn pairs(&self, x: Seq<Value>) -> int {
        if self.w@.len() <= x.len() {
            self.w@.len() as int
        } else {
            x.len() as int
        }
    }

    /// Number of nodes a forward pass over `x` adds.
    pub open spec fn span(&self, x: Seq<Value>) -> int {
        2 * self.pairs(x) + if self.nonlin {
            1int
        } else {
            0
        }
    }

    /// `t` holds, from node `o` on, the forward pass of `self` over `x`, whose
    /// result is `r`: the products `w[k] * x[k]` first, then the running sums,
    /// then the bias added, then the ReLU of a non-linear neuron.
    pub open spec fn built_at(&self, x: Seq<Value>, o: int, t: &Tape, r: Value) -> bool {
        &&& 0 <= o
        &&& o + self.span(x) <= t.len()
        &&& r.id == o + self.span(x) - 1
        &&& forall|k: int|
            0 <= k < self.pairs(x) ==> t.node_is(o + k, Some(Op::Mul), seq![(#[trigger] self.w@[k]).id, x[k].id], None)
        &&& forall|k: int|
            1 <= k < self.pairs(x) ==> t.node_is(
                #[trigger] acc_at(o, self.pairs(x), k),
                Some(Op::Add),
                seq![acc_at(o, self.pairs(x), k - 1) as usize, (o + k) as usize],
                None,
            )
        &&& t.node_is(
            o + 2 * self.pairs(x) - 1,
            Some(Op::Add),
            seq![acc_at(o, self.pairs(x), self.pairs(x) - 1) as usize, self.b.id],
            None,
        )
        &&& self.nonlin ==> t.node_is(
            o + 2 * self.pairs(x),
            Some(Op::Relu),
            seq![(o + 2 * self.pairs(x) - 1) as usize],
            None,
        )
    }

    /// `t` holds the forward pass of `self` over `x`, ending at `r`.
    pub open spec fn built(&self, x: Seq<Value>, t: &Tape, r: Value) -> bool {
        self.built_at(x, r.id + 1 - self.span(x), t, r)
    }

    pub open spec fn params(&self) -> Seq<Value> {
        self.w@.push(self.b)
    }

    /// A neuron with `nin` weights and a bias, each a new leaf whose value the
    /// caller sets (the weights come after one another, then the bias).
    pub fn new(nin: usize, nonlin: bool, tape: &mut Tape) -> (r: Neuron)
        requires
            old(tape).wf(),
        ensures
            final(tape).wf(),
            final(tape).extends(old(tape)),
            final(tape).len() == old(tape).len() + nin + 1,
            r.w@.len() == nin,
            r.nonlin == nonlin,
            forall|k: int| 0 <= k < nin ==> (#[trigger] r.w@[k]).id == old(tape).len() + k,
            r.b.id == old(tape).len() + nin,
            forall|n: int|
                old(tape).len() <= n < final(tape).len() ==> #[trigger] final(tape).node_is(n, None, seq![], None),
            r.valid(final(tape)),
            fresh_leaves(r.params(), old(tape), final(tape)),
    {
        let ghost start = *tape;
        let mut w: Vec<Value> = Vec::new();
        let mut i: usize = 0;
        while i < nin
            invariant
                tape.wf(),
                tape.extends(&start),
                0 <= i <= nin,
                tape.len() == start.len() + i,
                w@.len() == i,
                forall|k: int| 0 <= k < i ==> (#[trigger] w@[k]).id == start.len() + k,
                forall|n: int| start.len() <= n < tape.len() ==> #[trigger] tape.node_is(n, None, seq![], None),
            decreases nin - i,
        {
            let ghost before = *tape;
            let v = Value::from(tape);
            assert forall|n: int| start.len() <= n < tape.len() implies #[trigger] tape.node_is(n, None, seq![], None) by {
                if n < before.len() {
                    assert(before.node_is(n, None, seq![], None));
                    assert(tape.nodes@[n] == before.nodes@[n]);
                }
            }
            w.push(v);
            i = i + 1;
        }
        let ghost before = *tape;
        let b = Value::from(tape);
        assert forall|n: int| start.len() <= n < tape.len() implies #[trigger] tape.node_is(n, None, seq![], None) by {
            if n < before.len() {
                assert(before.node_is(n, None, seq![], None));
                assert(tape.nodes@[n] == before.nodes@[n]);
            }
        }
        let r = Neuron { w, b, nonlin };
        assert forall|k: int| 0 <= k < r.params().len() implies (#[trigger] r.params()[k]).id == start.len() + k by {}
        r
    }

    /// `relu(sum_k w[k] * x[k] + b)`, or without the ReLU for a linear
    /// neuron, over the first `m = min(w.len(), x.len())` pairs. The `m`
    /// products come first, then the running sums, then the bias, then the ReLU.
    pub fn forward(&self, x: &Vec<Value>, tape: &mut Tape) -> (r: Value)
        requires
            old(tape).wf(),
            self.valid(old(tape)),
            all_valid(x@, old(tape)),
            self.w@.len() >= 1,
            x@.len() >= 1,
        ensures
            final(tape).wf(),
            final(tape).extends(old(tape)),
            final(tape).len() == old(tape).len() + self.span(x@),
            self.built_at(x@, old(tape).len() as int, final(tape), r),
    {
        let ghost start = *tape;
        let ghost o = start.len() as int;
        let m = if self.w.len() <= x.len() { self.w.len() } else { x.len() };
        let mut prods: Vec<Value> = Vec::new();
        let mut i: usize = 0;
        while i < m
            invariant
                tape.wf(),
                tape.extends(&start),
                o == start.len(),
                m <= self.w@.len(),
                m <= x@.len(),
                self.valid(&start),
                all_valid(x@, &start),
                0 <= i <= m,
                tape.len() == o + i,
                prods@.len() == i,
                forall|k: int| 0 <= k < i ==> (#[trigger] prods@[k]).id == o + k,
                forall|k: int|
                    0 <= k < i ==> tape.node_is(o + k, Some(Op::Mul), seq![(#[trigger] self.w@[k]).id, x@[k].id], None),
            decreases m - i,
        {
            let ghost before = *tape;
            let p = Value::mul(&self.w[i], &x[i], tape);
            assert forall|k: int| 0 <= k < i + 1 implies tape.node_is(o + k, Some(Op::Mul), seq![(#[trigger] self.w@[k]).id, x@[k].id], None) by {
                if k < i {
                    assert(before.node_is(o + k, Some(Op::Mul), seq![self.w@[k].id, x@[k].id], None));
                    assert(tape.nodes@[o + k] == before.nodes@[o + k]);
                }
            }
            prods.push(p);
            i = i + 1;
        }
        let ghost mid = *tape;
        let mut acc = prods[0];
        let mut k: usize = 1;
        while k < m
            invariant
                tape.wf(),
                tape.extends(&mid),
                mid.extends(&start),
                o == start.len(),
                mid.len() == o + m,
                1 <= m <= self.w@.len(),
                m <= x@.len(),
                1 <= k <= m,
                prods@.len() == m,
                forall|q: int| 0 <= q < m ==> (#[trigger] prods@[q]).id == o + q,
                tape.len() == o + m + k - 1,
                acc.id == acc_at(o, m as int, k - 1),
                forall|q: int|
                    1 <= q < k ==> tape.node_is(
                        #[trigger] acc_at(o, m as int, q),
                        Some(Op::Add),
                        seq![acc_at(o, m as int, q - 1) as usize, (o + q) as usize],
                        None,
                    ),
            decreases m - k,
        {
            let ghost before = *tape;
            acc = Value::add(&acc, &prods[k], tape);
            assert forall|q: int| 1 <= q < k + 1 implies tape.node_is(
                #[trigger] acc_at(o, m as int, q),
                Some(Op::Add),
                seq![acc_at(o, m as int, q - 1) as usize, (o + q) as usize],
                None,
            ) by {
                if q < k {
                    assert(before.node_is(acc_at(o, m as int, q), Some(Op::Add), seq![acc_at(o, m as int, q - 1) as usize, (o + q) as usize], None));
                    assert(tape.nodes@[acc_at(o, m as int, q)] == before.nodes@[acc_at(o, m as int, q)]);
                }
            }
            k = k + 1;
        }
        let ghost sums = *tape;
        let out = Value::add(&acc, &self.b, tape);
        let ghost added = *tape;
        let r = if self.nonlin {
            out.relu(tape)
        } else {
            out
        };
        assert forall|q: int| 0 <= q < m implies tape.node_is(o + q, Some(Op::Mul), seq![(#[trigger] self.w@[q]).id, x@[q].id], None) by {
            assert(mid.node_is(o + q, Some(Op::Mul), seq![self.w@[q].id, x@[q].id], None));
            assert(tape.nodes@[o + q] == mid.nodes@[o + q]);
        }
        assert forall|q: int| 1 <= q < m implies tape.node_is(
            #[trigger] acc_at(o, m as int, q),
            Some(Op::Add),
            seq![acc_at(o, m as int, q - 1) as usize, (o + q) as usize],
            None,
        ) by {
            assert(sums.node_is(acc_at(o, m as int, q), Some(Op::Add), seq![acc_at(o, m as int, q - 1) as usize, (o + q) as usize], None));
            assert(tape.nodes@[acc_at(o, m as int, q)] == sums.nodes@[acc_at(o, m as int, q)]);
        }
        assert(tape.nodes@[o + 2 * m - 1] == added.nodes@[o + 2 * m - 1]);
        r
    }

    /// The weights, then the bias.
    pub fn parameters(&self) -> (r: Vec<Value>)
        ensures
            r@ == self.params(),
    {
        let mut r = self.w.clone();
        r.push(self.b);
        r
    }
}

/// The parameters of `ns`, neuron after neuron.
pub open spec fn layer_params(ns: Seq<Neuron>) -> Seq<Value>
    decreases ns.len(),
{
    if ns.len() == 0 {
        Seq::empty()
    } else {
        layer_params(ns.drop_last()) + ns.last().params()
    }
}

/// The parameters of `ls`, layer after layer.
pub open spec fn mlp_params(ls: Seq<Layer>) -> Seq<Value>
    decreases ls.len(),
{
    if ls.len() == 0 {
        Seq::empty()
    } else {
        mlp_params(ls.drop_last()) + layer_params(ls.last().neurons@)
    }
}

/// The rule of the node a neuron's forward pass returns.
pub open spec fn out_op(n: Neuron) -> Option<Op> {
    if n.nonlin {
        Some(Op::Relu)
    } else {
        Some(Op::Add)
    }
}

/// `r` holds new nodes of `after` (none of them in `before`), in increasing
/// order, and the node for neuron `k` of `ns` has the rule that neuron ends with.
pub open spec fn fresh_outputs(r: Seq<Value>, ns: Seq<Neuron>, before: &Tape, after: &Tape) -> bool {
    &&& r.len() == ns.len()
    &&& forall|k: int| 0 <= k < r.len() ==> before.len() <= (#[trigger] r[k]).id < after.len()
    &&& forall|a: int, b: int| 0 <= a < b < r.len() ==> (#[trigger] r[a]).id < (#[trigger] r[b]).id
    &&& forall|k: int| 0 <= k < r.len() ==> after.op_of((#[trigger] r[k]).id as int) == out_op(ns[k])
}

/// `outs` are the results of the neurons of `l`, each a forward pass over `ins`
/// that `t` holds.
pub open spec fn layer_applied(l: Layer, ins: Seq<Value>, outs: Seq<Value>, t: &Tape) -> bool {
    &&& outs.len() == l.neurons@.len()
    &&& forall|k: int| 0 <= k < outs.len() ==> (#[trigger] l.neurons@[k]).built(ins, t, outs[k])
}

/// A layer applied in `t1` stays applied in any extension of it.
proof fn lemma_applied_stays(l: Layer, ins: Seq<Value>, outs: Seq<Value>, t1: &Tape, t2: &Tape)
    requires
        t2.extends(t1),
        layer_applied(l, ins, outs, t1),
    ensures
        layer_applied(l, ins, outs, t2),
{
    assert forall|k: int| 0 <= k < outs.len() implies (#[trigger] l.neurons@[k]).built(ins, t2, outs[k]) by {
        lemma_built_stays(l.neurons@[k], ins, t1, t2, outs[k]);
    }
}

impl Layer {
    /// Every neuron names nodes of `tape` and has at least one weight.
    pub open spec fn valid(&self, tape: &Tape) -> bool {
        forall|k: int|
            0 <= k < self.neurons@.len() ==> (#[trigger] self.neurons@[k]).valid(tape) && self.neurons@[k].w@.len() >= 1
    }

    /// `nout` neurons with `nin` weights each.
    pub fn new(nin: usize, nout: usize, nonlin: bool, tape: &mut Tape) -> (r: Layer)
        requires
            old(tape).wf(),
        ensures
            final(tape).wf(),
            final(tape).extends(old(tape)),
            r.neurons@.len() == nout,
            forall|k: int|
                0 <= k < nout ==> (#[trigger] r.neurons@[k]).w@.len() == nin && r.neurons@[k].nonlin == nonlin
                    && r.neurons@[k].valid(final(tape)),
            fresh_leaves(layer_params(r.neurons@), old(tape), final(tape)),
    {
        let ghost start = *tape;
        let mut neurons: Vec<Neuron> = Vec::new();
        let mut i: usize = 0;
        while i < nout
            invariant
                tape.wf(),
                tape.extends(&start),
                0 <= i <= nout,
                neurons@.len() == i,
                forall|k: int|
                    0 <= k < i ==> (#[trigger] neurons@[k]).w@.len() == nin && neurons@[k].nonlin == nonlin
                        && neurons@[k].valid(tape),
                fresh_leaves(layer_params(neurons@), &start, tape),
            decreases nout - i,
        {
            let ghost before = *tape;
            let n = Neuron::new(nin, nonlin, tape);
            assert forall|k: int| 0 <= k < i implies (#[trigger] neurons@[k]).valid(tape) by {
                lemma_extends_valid(&before, tape, neurons@[k].w@);
            }
            let ghost old_ns = neurons@;
            neurons.push(n);
            proof {
                assert(neurons@.drop_last() =~= old_ns);
                lemma_fresh_concat(layer_params(old_ns), n.params(), &start, &before, tape);
            }
            i = i + 1;
        }
        Layer { neurons }
    }

    /// Each neuron applied to `x`, in order.
    pub fn forward(&self, x: &Vec<Value>, tape: &mut Tape) -> (r: Vec<Value>)
        requires
            old(tape).wf(),
            self.valid(old(tape)),
            all_valid(x@, old(tape)),
            x@.len() >= 1,
        ensures
            final(tape).wf(),
            final(tape).extends(old(tape)),
            fresh_outputs(r@, self.neurons@, old(tape), final(tape)),
            layer_applied(*self, x@, r@, final(tape)),
    {
        let ghost start = *tape;
        let mut out: Vec<Value> = Vec::new();
        let mut i: usize = 0;
        while i < self.neurons.len()
            invariant
                tape.wf(),
                tape.extends(&start),
                self.valid(&start),
                all_valid(x@, &start),
                x@.len() >= 1,
                0 <= i <= self.neurons@.len(),
                fresh_outputs(out@, self.neurons@.take(i as int), &start, tape),
                forall|k: int| 0 <= k < i ==> (#[trigger] self.neurons@[k]).built(x@, tape, out@[k]),
            decreases self.neurons@.len() - i,
        {
            let ghost before = *tape;
            let n = &self.neurons[i];
            assert(n.valid(&start));
            proof {
                lemma_extends_valid(&start, tape, n.w@);
                lemma_extends_valid(&start, tape, x@);
            }
            let v = n.forward(x, tape);
            let ghost prev_out = out@;
            out.push(v);
            assert forall|k: int| 0 <= k < i + 1 implies (#[trigger] self.neurons@[k]).built(x@, tape, out@[k]) by {
                if k < i {
                    assert(out@[k] == prev_out[k]);
                    lemma_built_stays(self.neurons@[k], x@, &before, tape, out@[k]);
                }
            }
            assert forall|k: int| 0 <= k < out@.len() implies tape.op_of((#[trigger] out@[k]).id as int) == out_op(self.neurons@.take(i + 1)[k]) by {
                if k < i {
                    assert(out@[k] == prev_out[k]);
                    assert(self.neurons@.take(i + 1)[k] == self.neurons@.take(i as int)[k]);
                    assert(tape.nodes@[out@[k].id as int] == before.nodes@[out@[k].id as int]);
                }
            }
            assert forall|a: int, b: int| 0 <= a < b < out@.len() implies (#[trigger] out@[a]).id < (#[trigger] out@[b]).id by {
                assert(out@[a] == prev_out[a]);
                if b < i {
                    assert(out@[b] == prev_out[b]);
                }
            }
            assert forall|k: int| 0 <= k < out@.len() implies start.len() <= (#[trigger] out@[k]).id < tape.len() by {
                if k < i {
                    assert(out@[k] == prev_out[k]);
                }
            }
            i = i + 1;
        }
        assert(self.neurons@.take(i as int) =~= self.neurons@);
        out
    }

    /// The parameters of every neuron, neuron after neuron.
    pub fn parameters(&self) -> (r: Vec<Value>)
        ensures
            r@ == layer_params(self.neurons@),
    {
        let mut r: Vec<Value> = Vec::new();
        let mut i: usize = 0;
        while i < self.neurons.len()
            invariant
                0 <= i <= self.neurons@.len(),
                r@ == layer_params(self.neurons@.take(i as int)),
            decreases self.neurons@.len() - i,
        {
            let mut p = self.neurons[i].parameters();
            assert(self.neurons@.take(i + 1).drop_last() =~= self.neurons@.take(i as int));
            r.append(&mut p);
            i = i + 1;
        }
        assert(self.neurons@.take(i as int) =~= self.neurons@);
        r
    }
}

impl MLP {
    /// Every layer is valid in `tape`.
    pub open spec fn valid(&self, tape: &Tape) -> bool {
        forall|k: int| 0 <= k < self.layers@.len() ==> (#[trigger] self.layers@[k]).valid(tape)
    }

    /// One layer per entry of `nouts`: layer `i` has `nouts[i]` neurons, each
    /// with `nin` weights in the first layer and `nouts[i - 1]` after it.
    pub fn new(nin: usize, nouts: Vec<usize>, nonlin: bool, tape: &mut Tape) -> (r: MLP)
        requires
            old(tape).wf(),
        ensures
            final(tape).wf(),
            final(tape).extends(old(tape)),
            r.layers@.len() == nouts@.len(),
            forall|i: int|
                0 <= i < nouts@.len() ==> (#[trigger] r.layers@[i]).neurons@.len() == nouts@[i],
            forall|i: int, k: int|
                0 <= i < nouts@.len() && 0 <= k < nouts@[i] ==> {
                    let n = #[trigger] r.layers@[i].neurons@[k];
                    &&& n.w@.len() == if i == 0 { nin } else { nouts@[i - 1] }
                    &&& n.nonlin == nonlin
                    &&& n.valid(final(tape))
                },
            fresh_leaves(mlp_params(r.layers@), old(tape), final(tape)),
    {
        let ghost start = *tape;
        let mut layers: Vec<Layer> = Vec::new();
        let mut i: usize = 0;
        while i < nouts.len()
            invariant
                tape.wf(),
                tape.extends(&start),
                0 <= i <= nouts@.len(),
                layers@.len() == i,
                forall|q: int| 0 <= q < i ==> (#[trigger] layers@[q]).neurons@.len() == nouts@[q],
                forall|q: int, k: int|
                    0 <= q < i && 0 <= k < nouts@[q] ==> {
                        let n = #[trigger] layers@[q].neurons@[k];
                        &&& n.w@.len() == if q == 0 { nin } else { nouts@[q - 1] }
                        &&& n.nonlin == nonlin
                        &&& n.valid(tape)
                    },
                fresh_leaves(mlp_params(layers@), &start, tape),
            decreases nouts@.len() - i,
        {
            let ghost before = *tape;
            let size = if i == 0 { nin } else { nouts[i - 1] };
            let l = Layer::new(size, nouts[i], nonlin, tape);
            assert forall|q: int, k: int| 0 <= q < i && 0 <= k < nouts@[q] implies (#[trigger] layers@[q].neurons@[k]).valid(tape) by {
                lemma_extends_valid(&before, tape, layers@[q].neurons@[k].w@);
            }
            let ghost old_ls = layers@;
            layers.push(l);
            proof {
                assert(layers@.drop_last() =~= old_ls);
                lemma_fresh_concat(mlp_params(old_ls), layer_params(l.neurons@), &start, &before, tape);
            }
            i = i + 1;
        }
        MLP { layers }
    }

    /// `outs` records a feed-forward pass held in `t`: `outs[0]` is the input,
    /// and layer `i` turns `outs[i]` into `outs[i + 1]`.
    pub open spec fn chained(&self, outs: Seq<Seq<Value>>, t: &Tape) -> bool {
        &&& outs.len() == self.layers@.len() + 1
        &&& forall|i: int|
            0 <= i < self.layers@.len() ==> layer_applied(#[trigger] self.layers@[i], outs[i], outs[i + 1], t)
    }

    /// The layers applied one after another: the input goes to the first layer,
    /// the outputs of each layer to the next; the result is the last layer's
    /// outputs (the input itself when there is no layer).
    pub fn forward(&self, x: Vec<Value>, tape: &mut Tape) -> (r: Vec<Value>)
        requires
            old(tape).wf(),
            self.valid(old(tape)),
            all_valid(x@, old(tape)),
            x@.len() >= 1,
            forall|i: int| 0 <= i < self.layers@.len() - 1 ==> (#[trigger] self.layers@[i]).neurons@.len() >= 1,
        ensures
            final(tape).wf(),
            final(tape).extends(old(tape)),
            exists|outs: Seq<Seq<Value>>|
                self.chained(outs, final(tape)) && outs[0] == x@ && outs.last() == r@,
            self.layers@.len() >= 1 ==> fresh_outputs(r@, self.layers@.last().neurons@, old(tape), final(tape)),
    {
        let ghost start = *tape;
        let ghost x0 = x@;
        let mut cur = x;
        let ghost mut outs: Seq<Seq<Value>> = seq![x0];
        let mut i: usize = 0;
        while i < self.layers.len()
            invariant
                tape.wf(),
                tape.extends(&start),
                self.valid(&start),
                forall|q: int| 0 <= q < self.layers@.len() - 1 ==> (#[trigger] self.layers@[q]).neurons@.len() >= 1,
                0 <= i <= self.layers@.len(),
                outs.len() == i + 1,
                outs[0] == x0,
                outs[i as int] == cur@,
                all_valid(cur@, tape),
                i < self.layers@.len() ==> cur@.len() >= 1,
                i >= 1 ==> fresh_outputs(cur@, self.layers@[i - 1].neurons@, &start, tape),
                forall|q: int| 0 <= q < i ==> layer_applied(#[trigger] self.layers@[q], outs[q], outs[q + 1], tape),
            decreases self.layers@.len() - i,
        {
            let ghost before = *tape;
            let ghost old_outs = outs;
            let l = &self.layers[i];
            assert(l.valid(&start));
            assert forall|k: int| 0 <= k < l.neurons@.len() implies (#[trigger] l.neurons@[k]).valid(tape) && l.neurons@[k].w@.len() >= 1 by {
                assert(l.neurons@[k].valid(&start));
                lemma_extends_valid(&start, tape, l.neurons@[k].w@);
            }
            let next = l.forward(&cur, tape);
            proof {
                outs = outs.push(next@);
                assert forall|q: int| 0 <= q < i + 1 implies layer_applied(#[trigger] self.layers@[q], outs[q], outs[q + 1], tape) by {
                    if q < i {
                        assert(outs[q] == old_outs[q] && outs[q + 1] == old_outs[q + 1]);
                        lemma_applied_stays(self.layers@[q], old_outs[q], old_outs[q + 1], &before, tape);
                    }
                }
                assert forall|k: int| 0 <= k < next@.len() implies (#[trigger] next@[k]).valid(tape) by {}
                if i + 1 < self.layers@.len() {
                    assert(self.layers@[i as int].neurons@.len() >= 1);
                }
                assert forall|k: int| 0 <= k < next@.len() implies start.len() <= (#[trigger] next@[k]).id < tape.len() by {}
            }
            cur = next;
            i = i + 1;
        }
        assert(self.chained(outs, tape) && outs[0] == x0 && outs.last() == cur@);
        cur
    }

    /// The parameters of every layer, layer after layer.
    pub fn parameters(&self) -> (r: Vec<Value>)
        ensures
            r@ == mlp_params(self.layers@),
    {
        let mut r: Vec<Value> = Vec::new();
        let mut i: usize = 0;
        while i < self.layers.len()
            invariant
                0 <= i <= self.layers@.len(),
                r@ == mlp_params(self.layers@.take(i as int)),
            decreases self.layers@.len() - i,
        {
            let mut p = self.layers[i].parameters();
            assert(self.layers@.take(i + 1).drop_last() =~= self.layers@.take(i as int));
            r.append(&mut p);
            i = i + 1;
        }
        assert(self.layers@.take(i as int) =~= self.layers@);
        r
    }
}

} // verus!
