use vstd::prelude::*;

verus! {

/// The rule that produced a non-leaf node.
#[derive(Clone, Copy, PartialEq, Eq, Structural, Debug)]
pub enum Op {
    Add,
    Mul,
    Pow,
    PowNeg,
    Tanh,
    Exp,
    Relu,
}

/// Number of operands a node produced by `op` holds.
pub open spec fn arity(op: Option<Op>) -> nat {
    match op {
        None => 0,
        Some(Op::Add) => 2,
        Some(Op::Mul) => 2,
        Some(Op::Pow) => 2,
        Some(_) => 1,
    }
}

/// Number of leading operands of a node produced by `op` that receive gradient:
/// all of them, but for a power, whose exponent is held fixed.
pub open spec fn fed(op: Option<Op>) -> nat {
    match op {
        Some(Op::Pow) => 1,
        _ => arity(op),
    }
}

/// One node of the graph: its rule, its operands (handles of earlier nodes),
/// and, for a leaf created by the engine itself, the integer constant it holds.
#[derive(Debug)]
pub struct Values {
    pub op: Option<Op>,
    pub prev: Vec<usize>,
    pub lit: Option<i64>,
}

/// A handle to a node of a `Tape`; two handles are the same node exactly when
/// their ids are equal.
#[derive(Clone, Copy, PartialEq, Eq, Structural, Debug)]
pub struct Value {
    pub id: usize,
}

/// The arena that holds every node. A node's operands always precede it, so
/// the graph is acyclic and the arena order is itself topological.
#[derive(Debug)]
pub struct Tape {
    pub nodes: Vec<Values>,
}

impl Tape {
    pub open spec fn len(&self) -> nat {
        self.nodes@.len()
    }

    pub open spec fn op_of(&self, n: int) -> Option<Op> {
        self.nodes@[n].op
    }

    pub open spec fn prev_of(&self, n: int) -> Seq<usize> {
        self.nodes@[n].prev@
    }

    pub open spec fn lit_of(&self, n: int) -> Option<i64> {
        self.nodes@[n].lit
    }

    pub open spec fn is_leaf(&self, n: int) -> bool {
        self.op_of(n) is None
    }

    /// Every node has as many operands as its rule asks for, every operand
    /// precedes the node that uses it, and only leaves hold a constant.
    pub open spec fn wf(&self) -> bool {
        &&& forall|n: int|
            0 <= n < self.len() ==> #[trigger] self.prev_of(n).len() == arity(self.op_of(n))
        &&& forall|n: int| 0 <= n < self.len() && (#[trigger] self.lit_of(n)) is Some ==> self.op_of(n) is None
        &&& forall|n: int, j: int|
            0 <= n < self.len() && 0 <= j < self.prev_of(n).len() ==> #[trigger] self.prev_of(n)[j] < n
    }

    /// `self` holds every node of `old` unchanged, and perhaps more after them.
    pub open spec fn extends(&self, old: &Tape) -> bool {
        &&& old.len() <= self.len()
        &&& forall|n: int| 0 <= n < old.len() ==> #[trigger] self.nodes@[n] == old.nodes@[n]
    }

    /// Node `n` is a node of `self` holding rule `op`, operands `prev` and constant `lit`.
    pub open spec fn node_is(&self, n: int, op: Option<Op>, prev: Seq<usize>, lit: Option<i64>) -> bool {
        &&& 0 <= n < self.len()
        &&& self.op_of(n) == op
        &&& self.prev_of(n) == prev
        &&& self.lit_of(n) == lit
    }

    /// `n` can be reached from `root` by following operand edges (`root` reaches itself).
    pub open spec fn reaches(&self, root: int, n: int) -> bool
        decreases root,
    {
        root == n || (0 <= root < self.len() && exists|j: int|
            0 <= j < self.prev_of(root).len() && 0 <= #[trigger] self.prev_of(root)[j] < root
                && self.reaches(self.prev_of(root)[j] as int, n))
    }

    /// An empty graph.
    pub fn new() -> (r: Tape)
        ensures
            r.wf(),
            r.len() == 0,
    {
        Tape { nodes: Vec::new() }
    }

    /// Number of leading operands of node `n` that receive gradient.
    pub fn fed_count(&self, n: usize) -> (r: usize)
        requires
            self.wf(),
            n < self.len(),
        ensures
            r == fed(self.op_of(n as int)),
    {
        let k = self.nodes[n].prev.len();
        assert(self.prev_of(n as int).len() == arity(self.op_of(n as int)));
        match self.nodes[n].op {
            Some(Op::Pow) => 1,
            _ => k,
        }
    }

    /// Number of nodes.
    pub fn size(&self) -> (r: usize)
        ensures
            r == self.len(),
    {
        self.nodes.len()
    }

    /// Appends one node and returns its handle.
    fn push(&mut self, op: Option<Op>, prev: Vec<usize>, lit: Option<i64>) -> (r: Value)
        requires
            old(self).wf(),
            prev@.len() == arity(op),
            lit is Some ==> op is None,
            forall|j: int| 0 <= j < prev@.len() ==> prev@[j] < old(self).len(),
        ensures
            final(self).wf(),
            final(self).extends(old(self)),
            final(self).len() == old(self).len() + 1,
            r.id == old(self).len(),
            final(self).node_is(r.id as int, op, prev@, lit),
    {
        let ghost p = prev@;
        let ghost before = *self;
        let r = Value { id: self.nodes.len() };
        self.nodes.push(Values { op, prev, lit });
        assert(self.prev_of(r.id as int) == p);
        assert(self.op_of(r.id as int) == op && self.lit_of(r.id as int) == lit);
        assert forall|n: int| 0 <= n < before.len() implies #[trigger] self.nodes@[n] == before.nodes@[n] by {}
        assert forall|n: int| 0 <= n < self.len() implies #[trigger] self.prev_of(n).len() == arity(self.op_of(n)) by {
            if n < before.len() {
                assert(self.nodes@[n] == before.nodes@[n]);
                assert(before.prev_of(n).len() == arity(before.op_of(n)));
            }
        }
        assert forall|n: int| 0 <= n < self.len() && (#[trigger] self.lit_of(n)) is Some implies self.op_of(n) is None by {
            if n < before.len() {
                assert(self.nodes@[n] == before.nodes@[n]);
                assert(before.lit_of(n) is Some ==> before.op_of(n) is None);
            }
        }
        assert forall|n: int, j: int| 0 <= n < self.len() && 0 <= j < self.prev_of(n).len() implies #[trigger] self.prev_of(n)[j] < n by {
            if n < before.len() {
                assert(self.nodes@[n] == before.nodes@[n]);
                assert(before.prev_of(n)[j] < n);
            }
        }
        r
    }
}


impl Value {
    /// The handle names a node of `tape`.
    pub open spec fn valid(&self, tape: &Tape) -> bool {
        self.id < tape.len()
    }

    /// A new leaf whose value the caller keeps (an input or a trainable parameter).
    pub fn from(tape: &mut Tape) -> (r: Value)
        requires
            old(tape).wf(),
        ensures
            final(tape).wf(),
            final(tape).extends(old(tape)),
            final(tape).len() == old(tape).len() + 1,
            r.id == old(tape).len(),
            final(tape).node_is(r.id as int, None, seq![], None),
    {
        tape.push(None, Vec::new(), None)
    }

    /// A new leaf that holds the integer constant `k`.
    pub fn constant(k: i64, tape: &mut Tape) -> (r: Value)
        requires
            old(tape).wf(),
        ensures
            final(tape).wf(),
            final(tape).extends(old(tape)),
            final(tape).len() == old(tape).len() + 1,
            r.id == old(tape).len(),
            final(tape).node_is(r.id as int, None, seq![], Some(k)),
    {
        tape.push(None, Vec::new(), Some(k))
    }

    /// The sum `a + b`; gradient flows unchanged to both operands.
    pub fn add(a: &Value, b: &Value, tape: &mut Tape) -> (r: Value)
        requires
            old(tape).wf(),
            a.valid(old(tape)),
            b.valid(old(tape)),
        ensures
            final(tape).wf(),
            final(tape).extends(old(tape)),
            final(tape).len() == old(tape).len() + 1,
            r.id == old(tape).len(),
            final(tape).node_is(r.id as int, Some(Op::Add), seq![a.id, b.id], None),
    {
        tape.push(Some(Op::Add), vec![a.id, b.id], None)
    }

    /// The product `a * b`; each operand receives the other's value times the gradient.
    pub fn mul(a: &Value, b: &Value, tape: &mut Tape) -> (r: Value)
        requires
            old(tape).wf(),
            a.valid(old(tape)),
            b.valid(old(tape)),
        ensures
            final(tape).wf(),
            final(tape).extends(old(tape)),
            final(tape).len() == old(tape).len() + 1,
            r.id == old(tape).len(),
            final(tape).node_is(r.id as int, Some(Op::Mul), seq![a.id, b.id], None),
    {
        tape.push(Some(Op::Mul), vec![a.id, b.id], None)
    }

    /// `self` raised to the value of `b`; only `self` receives gradient, the exponent is fixed.
    pub fn pow(&self, b: &Value, tape: &mut Tape) -> (r: Value)
        requires
            old(tape).wf(),
            self.valid(old(tape)),
            b.valid(old(tape)),
        ensures
            final(tape).wf(),
            final(tape).extends(old(tape)),
            final(tape).len() == old(tape).len() + 1,
            r.id == old(tape).len(),
            final(tape).node_is(r.id as int, Some(Op::Pow), seq![self.id, b.id], None),
    {
        tape.push(Some(Op::Pow), vec![self.id, b.id], None)
    }

    /// The reciprocal `1 / self`; this is what division is built from.
    pub fn powneg(&self, tape: &mut Tape) -> (r: Value)
        requires
            old(tape).wf(),
            self.valid(old(tape)),
        ensures
            final(tape).wf(),
            final(tape).extends(old(tape)),
            final(tape).len() == old(tape).len() + 1,
            r.id == old(tape).len(),
            final(tape).node_is(r.id as int, Some(Op::PowNeg), seq![self.id], None),
    {
        let prev = vec![self.id];
        assert(prev@ =~= seq![self.id]);
        tape.push(Some(Op::PowNeg), prev, None)
    }

    /// The hyperbolic tangent of `self`.
    pub fn tanh(&self, tape: &mut Tape) -> (r: Value)
        requires
            old(tape).wf(),
            self.valid(old(tape)),
        ensures
            final(tape).wf(),
            final(tape).extends(old(tape)),
            final(tape).len() == old(tape).len() + 1,
            r.id == old(tape).len(),
            final(tape).node_is(r.id as int, Some(Op::Tanh), seq![self.id], None),
    {
        let prev = vec![self.id];
        assert(prev@ =~= seq![self.id]);
        tape.push(Some(Op::Tanh), prev, None)
    }

    /// `e` raised to `self`; the rule reuses the node's own value.
    pub fn exp(&self, tape: &mut Tape) -> (r: Value)
        requires
            old(tape).wf(),
            self.valid(old(tape)),
        ensures
            final(tape).wf(),
            final(tape).extends(old(tape)),
            final(tape).len() == old(tape).len() + 1,
            r.id == old(tape).len(),
            final(tape).node_is(r.id as int, Some(Op::Exp), seq![self.id], None),
    {
        let prev = vec![self.id];
        assert(prev@ =~= seq![self.id]);
        tape.push(Some(Op::Exp), prev, None)
    }

    /// `max(0, self)`; gradient passes only where the output is positive.
    pub fn relu(&self, tape: &mut Tape) -> (r: Value)
        requires
            old(tape).wf(),
            self.valid(old(tape)),
        ensures
            final(tape).wf(),
            final(tape).extends(old(tape)),
            final(tape).len() == old(tape).len() + 1,
            r.id == old(tape).len(),
            final(tape).node_is(r.id as int, Some(Op::Relu), seq![self.id], None),
    {
        let prev = vec![self.id];
        assert(prev@ =~= seq![self.id]);
        tape.push(Some(Op::Relu), prev, None)
    }

    /// `-self`, built as `self * (-1)`.
    pub fn neg(&self, tape: &mut Tape) -> (r: Value)
        requires
            old(tape).wf(),
            self.valid(old(tape)),
        ensures
            final(tape).wf(),
            final(tape).extends(old(tape)),
            final(tape).len() == old(tape).len() + 2,
            r.id == old(tape).len() + 1,
            final(tape).node_is(old(tape).len() as int, None, seq![], Some(-1i64)),
            final(tape).node_is(r.id as int, Some(Op::Mul), seq![self.id, (r.id - 1) as usize], None),
    {
        let m = Value::constant(-1, tape);
        Value::mul(self, &m, tape)
    }

    /// `self - b`, built as `self + (-b)`.
    pub fn sub(&self, b: &Value, tape: &mut Tape) -> (r: Value)
        requires
            old(tape).wf(),
            self.valid(old(tape)),
            b.valid(old(tape)),
        ensures
            final(tape).wf(),
            final(tape).extends(old(tape)),
            final(tape).len() == old(tape).len() + 3,
            r.id == old(tape).len() + 2,
            final(tape).node_is(old(tape).len() as int, None, seq![], Some(-1i64)),
            final(tape).node_is(old(tape).len() + 1int, Some(Op::Mul), seq![b.id, old(tape).len() as usize], None),
            final(tape).node_is(r.id as int, Some(Op::Add), seq![self.id, (r.id - 1) as usize], None),
    {
        let n = b.neg(tape);
        Value::add(self, &n, tape)
    }

    /// `self / b`, built as `self * (1 / b)`.
    pub fn div(&self, b: &Value, tape: &mut Tape) -> (r: Value)
        requires
            old(tape).wf(),
            self.valid(old(tape)),
            b.valid(old(tape)),
        ensures
            final(tape).wf(),
            final(tape).extends(old(tape)),
            final(tape).len() == old(tape).len() + 2,
            r.id == old(tape).len() + 1,
            final(tape).node_is(old(tape).len() as int, Some(Op::PowNeg), seq![b.id], None),
            final(tape).node_is(r.id as int, Some(Op::Mul), seq![self.id, (r.id - 1) as usize], None),
    {
        let inv = b.powneg(tape);
        Value::mul(self, &inv, tape)
    }

    /// Left fold of `add` over `vals`, starting from a new leaf holding `0`.
    pub fn sum(vals: &Vec<Value>, tape: &mut Tape) -> (r: Value)
        requires
            old(tape).wf(),
            forall|k: int| 0 <= k < vals@.len() ==> (#[trigger] vals@[k]).valid(old(tape)),
        ensures
            final(tape).wf(),
            final(tape).extends(old(tape)),
            final(tape).len() == old(tape).len() + vals@.len() + 1,
            r.id == old(tape).len() + vals@.len(),
            final(tape).node_is(old(tape).len() as int, None, seq![], Some(0i64)),
            forall|k: int|
                0 <= k < vals@.len() ==> final(tape).node_is(
                    old(tape).len() + 1 + k,
                    Some(Op::Add),
                    seq![(old(tape).len() + k) as usize, (#[trigger] vals@[k]).id],
                    None,
                ),
    {
        let ghost start = *tape;
        let mut acc = Value::constant(0, tape);
        let mut i: usize = 0;
        while i < vals.len()
            invariant
                tape.wf(),
                tape.extends(&start),
                0 <= i <= vals@.len(),
                tape.len() == start.len() + i + 1,
                acc.id == start.len() + i,
                forall|k: int| 0 <= k < vals@.len() ==> (#[trigger] vals@[k]).valid(&start),
                tape.node_is(start.len() as int, None, seq![], Some(0i64)),
                forall|k: int|
                    0 <= k < i ==> tape.node_is(
                        start.len() + 1 + k,
                        Some(Op::Add),
                        seq![(start.len() + k) as usize, (#[trigger] vals@[k]).id],
                        None,
                    ),
            decreases vals@.len() - i,
        {
            let ghost before = *tape;
            let v = vals[i];
            acc = Value::add(&acc, &v, tape);
            assert forall|k: int| 0 <= k < i + 1 implies tape.node_is(
                start.len() + 1 + k,
                Some(Op::Add),
                seq![(start.len() + k) as usize, (#[trigger] vals@[k]).id],
                None,
            ) by {
                if k < i {
                    assert(before.node_is(start.len() + 1 + k, Some(Op::Add), seq![(start.len() + k) as usize, vals@[k].id], None));
                    assert(tape.nodes@[start.len() + 1 + k] == before.nodes@[start.len() + 1 + k]);
                }
            }
            assert(tape.nodes@[start.len() as int] == before.nodes@[start.len() as int]);
            i = i + 1;
        }
        acc
    }
}

} // verus!
