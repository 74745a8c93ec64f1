use vstd::prelude::*;
use crate::engine::{Op, Tape, Value, fed};

verus! {

/// Only a node at or below `root` can be reached from `root`.
pub proof fn lemma_reaches_below(tape: &Tape, root: int, n: int)
    requires
        tape.reaches(root, n),
    ensures
        n <= root,
    decreases root,
{
    if root != n {
        let j = choose|j: int|
            0 <= j < tape.prev_of(root).len() && 0 <= #[trigger] tape.prev_of(root)[j] < root
                && tape.reaches(tape.prev_of(root)[j] as int, n);
        lemma_reaches_below(tape, tape.prev_of(root)[j] as int, n);
    }
}

/// Reachability is transitive.
pub proof fn lemma_reaches_trans(tape: &Tape, a: int, b: int, c: int)
    requires
        tape.reaches(a, b),
        tape.reaches(b, c),
    ensures
        tape.reaches(a, c),
    decreases a,
{
    if a != b {
        let j = choose|j: int|
            0 <= j < tape.prev_of(a).len() && 0 <= #[trigger] tape.prev_of(a)[j] < a
                && tape.reaches(tape.prev_of(a)[j] as int, b);
        lemma_reaches_trans(tape, tape.prev_of(a)[j] as int, b, c);
    }
}

/// Every operand of a node is reached from it.
pub proof fn lemma_reaches_operand(tape: &Tape, n: int, j: int)
    requires
        tape.wf(),
        0 <= n < tape.len(),
        0 <= j < tape.prev_of(n).len(),
    ensures
        tape.reaches(n, tape.prev_of(n)[j] as int),
{
    let p = tape.prev_of(n)[j] as int;
    assert(tape.reaches(p, p));
    assert(0 <= tape.prev_of(n)[j] < n);
}

/// A set of marks that holds `s` and, below `root`, holds the operands of every
/// marked node, holds every node reached from `s`.
proof fn lemma_marks_complete(tape: &Tape, m: Seq<bool>, root: int, s: int, n: int)
    requires
        tape.wf(),
        m.len() == tape.len(),
        0 <= s <= root < tape.len(),
        m[s],
        forall|p: int, j: int|
            0 <= p <= root && m[p] && 0 <= j < tape.prev_of(p).len() ==> m[#[trigger] tape.prev_of(p)[j] as int],
        tape.reaches(s, n),
    ensures
        m[n],
    decreases s,
{
    if s != n {
        let j = choose|j: int|
            0 <= j < tape.prev_of(s).len() && 0 <= #[trigger] tape.prev_of(s)[j] < s
                && tape.reaches(tape.prev_of(s)[j] as int, n);
        lemma_marks_complete(tape, m, root, tape.prev_of(s)[j] as int, n);
    }
}

/// Marks, by handle, the nodes reached from `root`.
fn reach_marks(tape: &Tape, root: usize) -> (m: Vec<bool>)
    requires
        tape.wf(),
        root < tape.len(),
    ensures
        m@.len() == tape.len(),
        forall|n: int| 0 <= n < tape.len() ==> m@[n] == tape.reaches(root as int, n),
{
    let len = tape.size();
    let mut m: Vec<bool> = Vec::new();
    while m.len() < len
        invariant
            len == tape.len(),
            m@.len() <= len,
            forall|n: int| 0 <= n < m@.len() ==> !m@[n],
        decreases len - m@.len(),
    {
        m.push(false);
    }
    m.set(root, true);
    let mut i: usize = root + 1;
    while i > 0
        invariant
            tape.wf(),
            root < tape.len(),
            m@.len() == tape.len(),
            0 <= i <= root + 1,
            m@[root as int],
            forall|n: int| 0 <= n < tape.len() && m@[n] ==> tape.reaches(root as int, n),
            forall|p: int, j: int|
                i <= p <= root && m@[p] && 0 <= j < tape.prev_of(p).len() ==> m@[#[trigger] tape.prev_of(p)[j] as int],
        decreases i,
    {
        i = i - 1;
        if m[i] {
            let prev = &tape.nodes[i].prev;
            let mut j: usize = 0;
            while j < prev.len()
                invariant
                    tape.wf(),
                    root < tape.len(),
                    i <= root,
                    m@.len() == tape.len(),
                    m@[i as int],
                    prev@ == tape.prev_of(i as int),
                    0 <= j <= prev@.len(),
                    m@[root as int],
                    forall|n: int| 0 <= n < tape.len() && m@[n] ==> tape.reaches(root as int, n),
                    forall|p: int, k: int|
                        i < p <= root && m@[p] && 0 <= k < tape.prev_of(p).len() ==> m@[#[trigger] tape.prev_of(p)[k] as int],
                    forall|k: int| 0 <= k < j ==> m@[#[trigger] tape.prev_of(i as int)[k] as int],
                decreases prev@.len() - j,
            {
                let q = prev[j];
                assert(tape.prev_of(i as int)[j as int] < i);
                proof {
                    lemma_reaches_operand(tape, i as int, j as int);
                    lemma_reaches_trans(tape, root as int, i as int, q as int);
                }
                m.set(q, true);
                j = j + 1;
            }
        }
    }
    assert forall|n: int| 0 <= n < tape.len() implies m@[n] == tape.reaches(root as int, n) by {
        if tape.reaches(root as int, n) {
            lemma_marks_complete(tape, m@, root as int, root as int, n);
        }
    }
    m
}

impl Tape {
    /// `s` is the order in which the backward pass visits the nodes reached from
    /// `root`: each of them exactly once, by strictly decreasing handle, so that
    /// `root` comes first and every node comes before its operands.
    pub open spec fn is_backward_order(&self, root: int, s: Seq<usize>) -> bool {
        &&& s.len() >= 1
        &&& s[0] == root
        &&& forall|a: int, b: int| 0 <= a < b < s.len() ==> s[a] > s[b]
        &&& forall|a: int| 0 <= a < s.len() ==> #[trigger] s[a] < self.len() && self.reaches(root, s[a] as int)
        &&& forall|n: int| 0 <= n < self.len() && self.reaches(root, n) ==> exists|a: int| 0 <= a < s.len() && #[trigger] s[a] == n
    }
}

/// The handle in position `a` of a backward order is at most `root - a`.
proof fn lemma_order_bound(tape: &Tape, root: int, s: Seq<usize>, a: int)
    requires
        tape.is_backward_order(root, s),
        0 <= a < s.len(),
    ensures
        s[a] + a <= root,
    decreases a,
{
    if a > 0 {
        lemma_order_bound(tape, root, s, a - 1);
    }
}

/// A backward order holds no more handles than the graph has nodes.
pub proof fn lemma_order_len(tape: &Tape, root: int, s: Seq<usize>)
    requires
        tape.is_backward_order(root, s),
    ensures
        s.len() <= tape.len(),
{
    lemma_order_bound(tape, root, s, s.len() - 1);
    assert(s[0] < tape.len());
}

impl Value {
    /// The nodes reached from `self`, in the order the backward pass visits them.
    pub fn backward_order(&self, tape: &Tape) -> (r: Vec<usize>)
        requires
            tape.wf(),
            self.valid(tape),
        ensures
            tape.is_backward_order(self.id as int, r@),
    {
        let root = self.id;
        let len = tape.size();
        let m = reach_marks(tape, root);
        let mut out: Vec<usize> = Vec::new();
        let mut k: usize = root + 1;
        while k > 0
            invariant
                tape.wf(),
                root < tape.len(),
                m@.len() == tape.len(),
                forall|n: int| 0 <= n < tape.len() ==> m@[n] == tape.reaches(root as int, n),
                0 <= k <= root + 1,
                k <= root ==> out@.len() >= 1 && out@[0] == root,
                forall|a: int, b: int| 0 <= a < b < out@.len() ==> out@[a] > out@[b],
                forall|a: int| 0 <= a < out@.len() ==> k <= #[trigger] out@[a] <= root && tape.reaches(root as int, out@[a] as int),
                forall|n: int| k <= n <= root && tape.reaches(root as int, n) ==> exists|a: int| 0 <= a < out@.len() && #[trigger] out@[a] == n,
            decreases k,
        {
            k = k - 1;
            if m[k] {
                let ghost before = out@;
                out.push(k);
                assert forall|n: int| k <= n <= root && tape.reaches(root as int, n) implies exists|a: int| 0 <= a < out@.len() && #[trigger] out@[a] == n by {
                    if n == k {
                        assert(out@[out@.len() - 1] == n);
                    } else {
                        let a = choose|a: int| 0 <= a < before.len() && #[trigger] before[a] == n;
                        assert(out@[a] == n);
                    }
                }
            }
            assert(tape.reaches(root as int, root as int));
        }
        assert forall|n: int| 0 <= n < tape.len() && tape.reaches(root as int, n) implies exists|a: int| 0 <= a < out@.len() && #[trigger] out@[a] == n by {
            lemma_reaches_below(tape, root as int, n);
        }
        out
    }
}


/// In the backward order every consumer of a node comes before that node, so a
/// node's rule runs only after the rules of all its consumers have run.
pub proof fn lemma_consumers_first(tape: &Tape, root: int, s: Seq<usize>)
    requires
        tape.wf(),
        tape.is_backward_order(root, s),
    ensures
        forall|a: int, b: int, j: int|
            0 <= a < s.len() && 0 <= b < s.len() && 0 <= j < tape.prev_of(s[a] as int).len()
                && #[trigger] tape.prev_of(s[a] as int)[j] == #[trigger] s[b] ==> a < b,
{
    assert forall|a: int, b: int, j: int|
        0 <= a < s.len() && 0 <= b < s.len() && 0 <= j < tape.prev_of(s[a] as int).len()
            && #[trigger] tape.prev_of(s[a] as int)[j] == #[trigger] s[b] implies a < b by {
        assert(s[a] < tape.len());
        assert(tape.prev_of(s[a] as int)[j] < s[a]);
        if b < a {
            assert(s[b] > s[a]);
        }
    }
}

/// One gradient contribution of the backward pass: the rule of `node` adds to
/// the gradient of its operand in position `slot`, which is node `operand`.
#[derive(Clone, Copy, PartialEq, Eq, Structural, Debug)]
pub struct Step {
    pub node: usize,
    pub slot: usize,
    pub operand: usize,
}

/// Some step of `steps` is the contribution of node `c` to its operand in position `j`.
pub open spec fn has_step(steps: Seq<Step>, c: int, j: int) -> bool {
    exists|a: int| 0 <= a < steps.len() && (#[trigger] steps[a]).node == c && steps[a].slot == j
}

impl Tape {
    /// `steps` is the plan of the backward pass from `root`: one step for each
    /// operand position that receives gradient (all but a power's exponent) of
    /// each node reached from `root`, nothing else, ordered by decreasing node
    /// and then by increasing position.
    pub open spec fn is_backward_plan(&self, root: int, steps: Seq<Step>) -> bool {
        &&& forall|a: int|
            0 <= a < steps.len() ==> {
                let st = #[trigger] steps[a];
                &&& st.node < self.len()
                &&& self.reaches(root, st.node as int)
                &&& st.slot < fed(self.op_of(st.node as int))
                &&& st.slot < self.prev_of(st.node as int).len()
                &&& st.operand == self.prev_of(st.node as int)[st.slot as int]
            }
        &&& forall|a: int, b: int|
            0 <= a < b < steps.len() ==> steps[a].node > steps[b].node || (steps[a].node == steps[b].node
                && steps[a].slot < steps[b].slot)
        &&& forall|c: int, j: int|
            0 <= c < self.len() && self.reaches(root, c) && 0 <= j < fed(self.op_of(c)) ==> #[trigger] has_step(steps, c, j)
    }
}

/// In the backward plan every contribution into a node comes before every
/// contribution out of it: a node's gradient is complete before it is used.
pub proof fn lemma_accumulation_before_use(tape: &Tape, root: int, steps: Seq<Step>)
    requires
        tape.wf(),
        tape.is_backward_plan(root, steps),
    ensures
        forall|a: int, b: int|
            0 <= a < steps.len() && 0 <= b < steps.len() && (#[trigger] steps[b]).node == (#[trigger] steps[a]).operand ==> a < b,
{
    assert forall|a: int, b: int|
        0 <= a < steps.len() && 0 <= b < steps.len() && (#[trigger] steps[b]).node == (#[trigger] steps[a]).operand implies a < b by {
        let st = steps[a];
        assert(tape.prev_of(st.node as int)[st.slot as int] < st.node);
        if b <= a {
            if b < a {
                assert(steps[b].node >= steps[a].node);
            }
        }
    }
}

/// A leaf is never the node of a step: no rule runs for it, and its gradient
/// changes in the backward pass only as the operand of a consumer's step.
pub proof fn lemma_leaf_terminal(tape: &Tape, root: int, steps: Seq<Step>)
    requires
        tape.wf(),
        tape.is_backward_plan(root, steps),
    ensures
        forall|a: int| 0 <= a < steps.len() ==> !tape.is_leaf((#[trigger] steps[a]).node as int),
{
    assert forall|a: int| 0 <= a < steps.len() implies !tape.is_leaf((#[trigger] steps[a]).node as int) by {
        assert(tape.prev_of(steps[a].node as int).len() == crate::engine::arity(tape.op_of(steps[a].node as int)));
    }
}

/// When `y` is the product of a node `x` with itself, the plan from `y` holds
/// two contributions of `y` into `x`, one for each use, the first use first.
pub proof fn lemma_fan_out(tape: &Tape, y: int, x: usize, steps: Seq<Step>)
    requires
        tape.wf(),
        tape.node_is(y, Some(Op::Mul), seq![x, x], None),
        tape.is_backward_plan(y, steps),
    ensures
        exists|a: int, b: int|
            0 <= a < b < steps.len() && steps[a] == (Step { node: y as usize, slot: 0, operand: x }) && steps[b] == (Step {
                node: y as usize,
                slot: 1,
                operand: x,
            }),
{
    assert(tape.reaches(y, y));
    assert(has_step(steps, y, 0));
    assert(has_step(steps, y, 1));
    let a = choose|a: int| 0 <= a < steps.len() && (#[trigger] steps[a]).node == y && steps[a].slot == 0;
    let b = choose|b: int| 0 <= b < steps.len() && (#[trigger] steps[b]).node == y && steps[b].slot == 1;
    assert(steps[a].operand == x && steps[b].operand == x);
    if b < a {
        assert(steps[b].node > steps[a].node || steps[b].slot < steps[a].slot);
    }
    assert(steps[a] == (Step { node: y as usize, slot: 0, operand: x }));
    assert(steps[b] == (Step { node: y as usize, slot: 1, operand: x }));
}

impl Value {
    /// The plan of the backward pass from `self`. The caller seeds the gradient
    /// of `self` with one and then, step by step, adds to the gradient of
    /// `operand` the local derivative of `node` times the gradient of `node`.
    /// Leaves, having no rule, are the node of no step.
    pub fn backward(&self, tape: &Tape) -> (r: Vec<Step>)
        requires
            tape.wf(),
            self.valid(tape),
        ensures
            tape.is_backward_plan(self.id as int, r@),
    {
        let root = self.id;
        let order = self.backward_order(tape);
        let mut out: Vec<Step> = Vec::new();
        let ghost mut pos: Seq<int> = Seq::empty();
        let mut idx: usize = 0;
        while idx < order.len()
            invariant
                tape.wf(),
                root < tape.len(),
                tape.is_backward_order(root as int, order@),
                0 <= idx <= order@.len(),
                pos.len() == idx,
                forall|a: int|
                    0 <= a < out@.len() ==> {
                        let st = #[trigger] out@[a];
                        &&& st.node < tape.len()
                        &&& tape.reaches(root as int, st.node as int)
                        &&& st.slot < fed(tape.op_of(st.node as int))
                        &&& st.slot < tape.prev_of(st.node as int).len()
                        &&& st.operand == tape.prev_of(st.node as int)[st.slot as int]
                    },
                forall|a: int, b: int|
                    0 <= a < b < out@.len() ==> out@[a].node > out@[b].node || (out@[a].node == out@[b].node
                        && out@[a].slot < out@[b].slot),
                forall|a: int| 0 <= a < out@.len() && idx < order@.len() ==> (#[trigger] out@[a]).node > order@[idx as int],
                forall|x: int| 0 <= x < idx ==> 0 <= #[trigger] pos[x] && pos[x] + fed(tape.op_of(order@[x] as int)) <= out@.len(),
                forall|x: int, jj: int|
                    0 <= x < idx && 0 <= jj < fed(tape.op_of(order@[x] as int)) ==> out@[pos[x] + jj] == (Step {
                        node: order@[x],
                        slot: jj as usize,
                        operand: #[trigger] tape.prev_of(order@[x] as int)[jj],
                    }),
            decreases order@.len() - idx,
        {
            let c = order[idx];
            assert(c < tape.len() && tape.reaches(root as int, c as int));
            let prev = &tape.nodes[c].prev;
            let count = tape.fed_count(c);
            assert(count <= prev@.len()) by {
                assert(tape.prev_of(c as int).len() == crate::engine::arity(tape.op_of(c as int)));
            }
            let ghost base = out@;
            let mut j: usize = 0;
            while j < count
                invariant
                    tape.wf(),
                    root < tape.len(),
                    0 <= idx < order@.len(),
                    c == order@[idx as int],
                    c < tape.len(),
                    tape.reaches(root as int, c as int),
                    prev@ == tape.prev_of(c as int),
                    count == fed(tape.op_of(c as int)),
                    count <= prev@.len(),
                    0 <= j <= count,
                    out@.len() == base.len() + j,
                    forall|a: int| 0 <= a < base.len() ==> out@[a] == base[a],
                    forall|a: int| 0 <= a < base.len() ==> (#[trigger] base[a]).node > c,
                    forall|a: int|
                        base.len() <= a < out@.len() ==> (#[trigger] out@[a]) == (Step {
                            node: c,
                            slot: (a - base.len()) as usize,
                            operand: prev@[a - base.len()],
                        }),
                    forall|a: int|
                        0 <= a < out@.len() ==> {
                            let st = #[trigger] out@[a];
                            &&& st.node < tape.len()
                            &&& tape.reaches(root as int, st.node as int)
                            &&& st.slot < fed(tape.op_of(st.node as int))
                        &&& st.slot < tape.prev_of(st.node as int).len()
                            &&& st.operand == tape.prev_of(st.node as int)[st.slot as int]
                        },
                    forall|a: int, b: int|
                        0 <= a < b < out@.len() ==> out@[a].node > out@[b].node || (out@[a].node == out@[b].node
                            && out@[a].slot < out@[b].slot),
                decreases count - j,
            {
                let st = Step { node: c, slot: j, operand: prev[j] };
                let ghost prev_out = out@;
                out.push(st);
                assert forall|a: int| 0 <= a < prev_out.len() implies out@[a] == prev_out[a] by {}
                assert forall|a: int, b: int|
                    0 <= a < b < out@.len() implies out@[a].node > out@[b].node || (out@[a].node == out@[b].node
                        && out@[a].slot < out@[b].slot) by {
                    if b == out@.len() - 1 {
                        assert(out@[a] == prev_out[a]);
                        if a < base.len() {
                            assert(prev_out[a] == base[a]);
                        } else {
                            assert(prev_out[a] == (Step { node: c, slot: (a - base.len()) as usize, operand: prev@[a - base.len()] }));
                        }
                    } else {
                        assert(out@[a] == prev_out[a]);
                        assert(out@[b] == prev_out[b]);
                    }
                }
                j = j + 1;
            }
            let ghost old_pos = pos;
            proof {
                pos = pos.push(base.len() as int);
            }
            assert forall|x: int, jj: int|
                0 <= x < idx + 1 && 0 <= jj < fed(tape.op_of(order@[x] as int)) implies out@[pos[x] + jj] == (Step {
                    node: order@[x],
                    slot: jj as usize,
                    operand: #[trigger] tape.prev_of(order@[x] as int)[jj],
                }) by {
                if x == idx {
                    assert(out@[base.len() + jj] == (Step { node: c, slot: jj as usize, operand: prev@[jj] }));
                } else {
                    assert(pos[x] == old_pos[x]);
                    assert(base[pos[x] + jj] == (Step { node: order@[x], slot: jj as usize, operand: tape.prev_of(order@[x] as int)[jj] }));
                    assert(out@[pos[x] + jj] == base[pos[x] + jj]);
                }
            }
            assert forall|x: int| 0 <= x < idx + 1 implies 0 <= #[trigger] pos[x] && pos[x] + fed(tape.op_of(order@[x] as int)) <= out@.len() by {
                if x < idx {
                    assert(pos[x] == old_pos[x]);
                }
            }
            assert forall|a: int| 0 <= a < out@.len() && idx + 1 < order@.len() implies (#[trigger] out@[a]).node > order@[idx + 1] by {
                assert(order@[idx as int] > order@[idx + 1]);
                if a < base.len() {
                    assert(out@[a] == base[a]);
                }
            }
            idx = idx + 1;
        }
        assert forall|cc: int, jj: int|
            0 <= cc < tape.len() && tape.reaches(root as int, cc) && 0 <= jj < fed(tape.op_of(cc)) implies #[trigger] has_step(out@, cc, jj) by {
            let x = choose|x: int| 0 <= x < order@.len() && #[trigger] order@[x] == cc;
            assert(tape.prev_of(cc).len() == crate::engine::arity(tape.op_of(cc)));
            assert(tape.prev_of(order@[x] as int)[jj] == tape.prev_of(cc)[jj]);
            assert(out@[pos[x] + jj].node == cc);
        }
        out
    }
}

} // verus!
