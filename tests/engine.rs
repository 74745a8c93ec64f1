use micrograd::engine::{Op, Tape, Value};
use micrograd::graph::{draw_dot, trace};
use micrograd::nn::{Layer, Neuron, MLP};
use micrograd::topo::Step;

/// Values and gradients kept beside a tape, computed in floating point.
struct Num {
    tape: Tape,
    data: Vec<f64>,
    grad: Vec<f64>,
}

impl Num {
    fn new() -> Num {
        Num { tape: Tape::new(), data: Vec::new(), grad: Vec::new() }
    }

    fn lift(&mut self, x: f64) -> Value {
        let v = Value::from(&mut self.tape);
        self.data.push(x);
        self.grad.push(0.0);
        v
    }

    /// Computes the value of every node added since the last call; a new
    /// parameter leaf gets `fresh`.
    fn sync(&mut self, fresh: f64) {
        while self.data.len() < self.tape.size() {
            let n = &self.tape.nodes[self.data.len()];
            let d = &self.data;
            let x = match n.op {
                None => match n.lit {
                    Some(k) => k as f64,
                    None => fresh,
                },
                Some(Op::Add) => d[n.prev[0]] + d[n.prev[1]],
                Some(Op::Mul) => d[n.prev[0]] * d[n.prev[1]],
                Some(Op::Pow) => d[n.prev[0]].powf(d[n.prev[1]]),
                Some(Op::PowNeg) => 1.0 / d[n.prev[0]],
                Some(Op::Tanh) => d[n.prev[0]].tanh(),
                Some(Op::Exp) => d[n.prev[0]].exp(),
                Some(Op::Relu) => d[n.prev[0]].max(0.0),
            };
            self.data.push(x);
            self.grad.push(0.0);
        }
    }

    fn add(&mut self, a: Value, b: Value) -> Value {
        let r = Value::add(&a, &b, &mut self.tape);
        self.sync(0.0);
        r
    }

    fn mul(&mut self, a: Value, b: Value) -> Value {
        let r = Value::mul(&a, &b, &mut self.tape);
        self.sync(0.0);
        r
    }

    fn addf(&mut self, a: Value, k: f64) -> Value {
        let c = self.lift(k);
        self.add(a, c)
    }

    fn fmul(&mut self, k: f64, a: Value) -> Value {
        let c = self.lift(k);
        self.mul(c, a)
    }

    fn powf(&mut self, a: Value, k: f64) -> Value {
        let c = self.lift(k);
        let r = a.pow(&c, &mut self.tape);
        self.sync(0.0);
        r
    }

    fn neg(&mut self, a: Value) -> Value {
        let r = a.neg(&mut self.tape);
        self.sync(0.0);
        r
    }

    fn sub(&mut self, a: Value, b: Value) -> Value {
        let r = a.sub(&b, &mut self.tape);
        self.sync(0.0);
        r
    }

    fn div(&mut self, a: Value, b: Value) -> Value {
        let r = a.div(&b, &mut self.tape);
        self.sync(0.0);
        r
    }

    fn relu(&mut self, a: Value) -> Value {
        let r = a.relu(&mut self.tape);
        self.sync(0.0);
        r
    }

    fn tanh(&mut self, a: Value) -> Value {
        let r = a.tanh(&mut self.tape);
        self.sync(0.0);
        r
    }

    fn exp(&mut self, a: Value) -> Value {
        let r = a.exp(&mut self.tape);
        self.sync(0.0);
        r
    }

    fn backward(&mut self, root: Value) {
        let mut grad = vec![0.0; self.tape.size()];
        grad[root.id] = 1.0;
        for st in root.backward(&self.tape) {
            let n = &self.tape.nodes[st.node];
            let d = &self.data;
            let g = grad[st.node];
            let delta = match n.op.unwrap() {
                Op::Add => g,
                Op::Mul => d[n.prev[1 - st.slot]] * g,
                Op::Pow => {
                    let e = d[n.prev[1]];
                    e * d[st.operand].powf(e - 1.0) * g
                }
                Op::PowNeg => -(1.0 / d[st.operand].powf(2.0)) * g,
                Op::Tanh => (1.0 - d[st.operand].tanh().powf(2.0)) * g,
                Op::Exp => d[st.node] * g,
                Op::Relu => (d[st.node] > 0.0) as i8 as f64 * g,
            };
            grad[st.operand] += delta;
        }
        for (total, g) in self.grad.iter_mut().zip(grad) {
            *total += g;
        }
    }
}

#[test]
fn test_usage() {
    let mut t = Num::new();
    let a = t.lift(-4.0);
    let b = t.lift(2.0);

    let mut c = t.add(a, b);
    let ab = t.mul(a, b);
    let b3 = t.powf(b, 3.0);
    let mut d = t.add(ab, b3);

    let c1 = t.addf(c, 1.0);
    c = t.add(c, c1);
    let one = t.lift(1.0);
    let oc = t.add(one, c);
    let na = t.neg(a);
    let rhs = t.add(oc, na);
    c = t.add(c, rhs);
    let d2 = t.fmul(2.0, d);
    let ba = t.add(b, a);
    let r1 = t.relu(ba);
    let rhs = t.add(d2, r1);
    d = t.add(d, rhs);
    let d3 = t.fmul(3.0, d);
    let bma = t.sub(b, a);
    let r2 = t.relu(bma);
    let rhs = t.add(d3, r2);
    d = t.add(d, rhs);

    let e = t.sub(c, d);
    let f = t.powf(e, 2.0);
    let two = t.lift(2.0);
    let mut g = t.div(f, two);
    let ten = t.lift(10.0);
    let tf = t.div(ten, f);
    g = t.add(g, tf);

    assert_eq!(format!("{:.4}", t.data[g.id]), "24.7041");
    t.backward(g);
    assert_eq!(format!("{:.4}", t.grad[a.id]), "138.8338");
    assert_eq!(format!("{:.4}", t.grad[b.id]), "645.5773");
}

#[test]
fn square_gets_both_contributions() {
    let mut t = Num::new();
    let x = t.lift(3.0);
    let y = t.mul(x, x);
    t.backward(y);
    assert_eq!(t.grad[x.id], 2.0 * t.data[x.id]);
    assert_eq!(t.grad[x.id], 6.0);
    let plan = y.backward(&t.tape);
    assert_eq!(plan, vec![Step { node: 1, slot: 0, operand: 0 }, Step { node: 1, slot: 1, operand: 0 }]);
}

fn expr(t: &mut Num, xv: f64) -> (Value, Value) {
    let x = t.lift(xv);
    let three = t.lift(3.0);
    let p = t.powf(x, 3.0);
    let th = t.tanh(x);
    let ex = t.exp(th);
    let q = t.div(ex, three);
    let s = t.add(p, q);
    let m = t.mul(s, x);
    let r = t.relu(m);
    let y = t.sub(r, th);
    (x, y)
}

#[test]
fn gradient_matches_finite_difference() {
    for xv in [0.7, 1.3, 2.1] {
        let mut t = Num::new();
        let (x, y) = expr(&mut t, xv);
        t.backward(y);
        let eps = 1e-6;
        let mut hi = Num::new();
        let (_, yh) = expr(&mut hi, xv + eps);
        let mut lo = Num::new();
        let (_, yl) = expr(&mut lo, xv - eps);
        let numeric = (hi.data[yh.id] - lo.data[yl.id]) / (2.0 * eps);
        assert!((t.grad[x.id] - numeric).abs() < 1e-4, "{} vs {}", t.grad[x.id], numeric);
    }
}

#[test]
fn equal_leaves_are_distinct_nodes() {
    let mut t = Num::new();
    let a = t.lift(0.0);
    let b = t.lift(0.0);
    let s = t.add(a, b);
    let p = t.mul(a, b);
    let y = t.add(s, p);
    t.backward(y);
    assert_eq!(t.grad[a.id], 1.0);
    assert_eq!(t.grad[b.id], 1.0);
    let order = y.backward_order(&t.tape);
    assert_eq!(order, vec![4, 3, 2, 1, 0]);
}

#[test]
fn repeated_backward_on_one_level_doubles_leaf_gradients() {
    let mut t = Num::new();
    let x = t.lift(3.0);
    let w = t.lift(-2.0);
    let y = t.mul(x, w);
    t.backward(y);
    let (gx, gw) = (t.grad[x.id], t.grad[w.id]);
    t.backward(y);
    assert_eq!(t.grad[x.id], 2.0 * gx);
    assert_eq!(t.grad[w.id], 2.0 * gw);
}

#[test]
fn repeated_backward_doubles_every_gradient() {
    let mut t = Num::new();
    let a = t.lift(5.0);
    let a1 = t.addf(a, 1.0);
    let y = t.fmul(2.0, a1);
    t.backward(y);
    let first = t.grad.clone();
    assert_eq!(t.grad[a.id], 2.0);
    t.backward(y);
    assert_eq!(t.grad[a.id], 4.0);
    assert_eq!(t.grad[a1.id], 4.0);
    assert_eq!(t.grad[y.id], 2.0);
    for (g2, g1) in t.grad.iter().zip(first) {
        assert_eq!(*g2, 2.0 * g1);
    }
}

#[test]
fn order_skips_unreached_nodes() {
    let mut tape = Tape::new();
    let a = Value::from(&mut tape);
    let b = Value::from(&mut tape);
    let _unused = Value::from(&mut tape);
    let c = Value::add(&a, &b, &mut tape);
    let d = c.tanh(&mut tape);
    assert_eq!(d.backward_order(&tape), vec![4, 3, 1, 0]);
    assert_eq!(a.backward_order(&tape), vec![0]);
}

#[test]
fn leaf_has_empty_plan() {
    let mut tape = Tape::new();
    let a = Value::from(&mut tape);
    assert!(a.backward(&tape).is_empty());
}

#[test]
fn power_exponent_gets_no_step() {
    let mut tape = Tape::new();
    let x = Value::from(&mut tape);
    let k = Value::from(&mut tape);
    let y = x.pow(&k, &mut tape);
    assert_eq!(y.backward(&tape), vec![Step { node: 2, slot: 0, operand: 0 }]);
    assert_eq!(y.backward_order(&tape), vec![2, 1, 0]);
}

#[test]
fn construction_shapes() {
    let mut tape = Tape::new();
    let a = Value::from(&mut tape);
    let b = Value::from(&mut tape);
    let q = a.div(&b, &mut tape);
    assert_eq!(q.id, 3);
    assert_eq!(tape.nodes[2].op, Some(Op::PowNeg));
    assert_eq!(tape.nodes[2].prev, vec![1]);
    assert_eq!(tape.nodes[3].op, Some(Op::Mul));
    assert_eq!(tape.nodes[3].prev, vec![0, 2]);
    let n = a.neg(&mut tape);
    assert_eq!(tape.nodes[4].lit, Some(-1));
    assert_eq!(tape.nodes[n.id].prev, vec![0, 4]);
    let e = a.exp(&mut tape);
    assert_eq!(tape.nodes[e.id].op, Some(Op::Exp));
}

#[test]
fn sum_folds_from_zero() {
    let mut t = Num::new();
    let xs = vec![t.lift(1.5), t.lift(2.0), t.lift(-0.5)];
    let s = Value::sum(&xs, &mut t.tape);
    t.sync(0.0);
    assert_eq!(s.id, 6);
    assert_eq!(t.tape.nodes[3].lit, Some(0));
    assert_eq!(t.tape.nodes[4].prev, vec![3, 0]);
    assert_eq!(t.tape.nodes[6].prev, vec![5, 2]);
    assert_eq!(t.data[s.id], 3.0);
    let mut empty = Tape::new();
    let z = Value::sum(&Vec::new(), &mut empty);
    assert_eq!(z.id, 0);
    assert_eq!(empty.nodes[0].lit, Some(0));
}

#[test]
fn trace_counts_a_repeated_operand_once() {
    let mut tape = Tape::new();
    let x = Value::from(&mut tape);
    let y = Value::mul(&x, &x, &mut tape);
    let z = y.relu(&mut tape);
    let (nodes, edges) = trace(&tape, &z);
    assert_eq!(nodes, vec![2, 1, 0]);
    assert_eq!(edges.len(), 2);
    assert_eq!(edges[0], Step { node: 2, slot: 0, operand: 1 });
    assert_eq!(edges[1], Step { node: 1, slot: 0, operand: 0 });
}

#[test]
fn dot_text_names_nodes_and_rules() {
    let mut tape = Tape::new();
    let x = Value::from(&mut tape);
    let w = Value::from(&mut tape);
    let y = Value::mul(&x, &w, &mut tape);
    let labels = vec!["x".to_string(), "w".to_string(), "y".to_string()];
    let dot = draw_dot(&tape, &y, &labels);
    assert!(dot.starts_with("digraph {"));
    assert!(dot.contains("label = \"y\""));
    assert!(dot.contains("label = \"x\""));
    assert!(dot.contains("1 -> 0 [ label = \"*\" ]"));
    assert!(dot.contains("2 -> 0 [ label = \"*\" ]"));
}

#[test]
fn neuron_forward_shape() {
    let mut t = Num::new();
    let n = Neuron::new(2, true, &mut t.tape);
    t.sync(0.5);
    assert_eq!(n.parameters().len(), 3);
    assert_eq!(n.b.id, 2);
    let x = vec![t.lift(1.0), t.lift(-2.0)];
    let y = n.forward(&x, &mut t.tape);
    t.sync(0.0);
    // products 0.5 and -1.0, sum -0.5, plus bias 0.0, ReLU 0.0
    assert_eq!(t.tape.nodes[y.id].op, Some(Op::Relu));
    assert_eq!(t.data[y.id], 0.0);
    t.backward(y);
    assert_eq!(t.grad[n.w[0].id], 0.0);
}

#[test]
fn linear_neuron_value_and_gradients() {
    let mut t = Num::new();
    let n = Neuron::new(3, false, &mut t.tape);
    t.sync(2.0);
    let x = vec![t.lift(1.0), t.lift(2.0), t.lift(3.0)];
    let y = n.forward(&x, &mut t.tape);
    t.sync(0.0);
    assert_eq!(t.data[y.id], 14.0);
    t.backward(y);
    assert_eq!(t.grad[n.w[2].id], 3.0);
    assert_eq!(t.grad[n.b.id], 1.0);
    assert_eq!(t.grad[x[1].id], 2.0);
}

#[test]
fn layer_and_network_sizes() {
    let mut tape = Tape::new();
    let l = Layer::new(3, 4, true, &mut tape);
    assert_eq!(l.parameters().len(), 16);
    let m = MLP::new(3, vec![4, 4, 1], true, &mut tape);
    assert_eq!(m.parameters().len(), 16 + 20 + 5);
    assert_eq!(m.layers[1].neurons[0].w.len(), 4);
    let x = vec![Value::from(&mut tape), Value::from(&mut tape), Value::from(&mut tape)];
    let out = m.forward(x.clone(), &mut tape);
    assert_eq!(out.len(), 1);
    assert_eq!(tape.nodes[out[0].id].op, Some(Op::Relu));
    let ys = l.forward(&x, &mut tape);
    assert_eq!(ys.len(), 4);
    assert_eq!(tape.nodes[ys[0].id].op, Some(Op::Relu));
}

#[test]
fn network_feeds_each_layer_the_previous_outputs() {
    let mut t = Num::new();
    let m = MLP::new(2, vec![2, 1], false, &mut t.tape);
    t.sync(1.0);
    let x = vec![t.lift(1.0), t.lift(2.0)];
    let out = m.forward(x, &mut t.tape);
    t.sync(0.0);
    // first layer: 1*1 + 1*2 + 1 = 4 for each neuron; second: 4 + 4 + 1 = 9
    assert_eq!(out.len(), 1);
    assert_eq!(t.data[out[0].id], 9.0);
    t.backward(out[0]);
    let w0 = m.layers[0].neurons[0].w[1];
    assert_eq!(t.grad[w0.id], 2.0);
}

#[test]
fn parameters_are_distinct_new_leaves() {
    let mut tape = Tape::new();
    let _before = Value::from(&mut tape);
    let m = MLP::new(2, vec![3, 2], true, &mut tape);
    let ps = m.parameters();
    assert_eq!(ps.len(), 9 + 8);
    for k in 0..ps.len() {
        assert!(ps[k].id >= 1);
        assert!(tape.nodes[ps[k].id].op.is_none() && tape.nodes[ps[k].id].lit.is_none());
        if k > 0 {
            assert!(ps[k - 1].id < ps[k].id);
        }
    }
}
