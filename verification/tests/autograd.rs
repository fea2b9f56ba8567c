//! End-to-end tests: the graph structure, the topological traversal, the
//! backward schedule, and the numeric gradients obtained by running the
//! schedule against value/gradient arrays kept alongside the arena.

use scalargrad::backward::Factor;
use scalargrad::graph::{Graph, Op};
use std::f64::consts::E;

/// A new leaf holding `v`, with a zeroed gradient accumulator.
fn leaf(g: &mut Graph, vals: &mut Vec<f64>, grads: &mut Vec<f64>, v: f64) -> usize {
    let i = g.leaf();
    vals.push(v);
    grads.push(0.0);
    i
}

/// A new leaf holding `v`, with its gradient accumulator pre-seeded to `gr`.
fn leaf_with_grad(
    g: &mut Graph,
    vals: &mut Vec<f64>,
    grads: &mut Vec<f64>,
    v: f64,
    gr: f64,
) -> usize {
    let i = g.leaf();
    vals.push(v);
    grads.push(gr);
    i
}

/// Assigns `v` to the next pending node, which must be a leaf that a
/// composite builder created (a constant or an exponent).
fn push_const(vals: &mut Vec<f64>, grads: &mut Vec<f64>, v: f64) {
    vals.push(v);
    grads.push(0.0);
}

/// Computes forward values for every node the graph holds beyond the arrays,
/// in arena order; operands always lie below, so a single left-to-right pass
/// settles them all.
fn eval(g: &Graph, vals: &mut Vec<f64>, grads: &mut Vec<f64>) {
    let mut i = vals.len();
    while i < g.len() {
        let v = match g.op_at(i) {
            Op::Leaf => panic!("a composite-created leaf must be given its value first"),
            Op::Sum(a, b) => vals[a] + vals[b],
            Op::Product(a, b) => vals[a] * vals[b],
            Op::Power(base, e) => vals[base].powf(vals[e]),
            Op::Tanh(a) => {
                let d = vals[a];
                (E.powf(2.0 * d) - 1.0) / (E.powf(2.0 * d) + 1.0)
            }
        };
        vals.push(v);
        grads.push(0.0);
        i += 1;
    }
}

fn sum(g: &mut Graph, vals: &mut Vec<f64>, grads: &mut Vec<f64>, a: usize, b: usize) -> usize {
    let i = g.sum(a, b);
    eval(g, vals, grads);
    i
}

fn product(g: &mut Graph, vals: &mut Vec<f64>, grads: &mut Vec<f64>, a: usize, b: usize) -> usize {
    let i = g.product(a, b);
    eval(g, vals, grads);
    i
}

fn tanh(g: &mut Graph, vals: &mut Vec<f64>, grads: &mut Vec<f64>, a: usize) -> usize {
    let i = g.tanh(a);
    eval(g, vals, grads);
    i
}

fn power(g: &mut Graph, vals: &mut Vec<f64>, grads: &mut Vec<f64>, base: usize, n: f64) -> usize {
    let (_, i) = g.power(base);
    push_const(vals, grads, n);
    eval(g, vals, grads);
    i
}

fn difference(
    g: &mut Graph,
    vals: &mut Vec<f64>,
    grads: &mut Vec<f64>,
    x: usize,
    y: usize,
) -> usize {
    let i = g.difference(x, y);
    push_const(vals, grads, -1.0);
    eval(g, vals, grads);
    i
}

fn quotient(
    g: &mut Graph,
    vals: &mut Vec<f64>,
    grads: &mut Vec<f64>,
    x: usize,
    y: usize,
) -> usize {
    let i = g.quotient(x, y);
    push_const(vals, grads, -1.0);
    eval(g, vals, grads);
    i
}

/// Seeds the root's gradient with one and performs the scheduled
/// accumulations in order.
fn backward(g: &Graph, vals: &[f64], grads: &mut [f64], root: usize) {
    grads[root] = 1.0;
    for s in g.backward_schedule(root) {
        let f = match s.factor {
            Factor::One => 1.0,
            Factor::ValueOf(v) => vals[v],
            Factor::PowerRule(base, e) => vals[e] * vals[base].powf(vals[e] - 1.0),
            Factor::TanhRule(t) => 1.0 - vals[t].powi(2),
        };
        grads[s.target] += f * grads[s.source];
    }
}

#[test]
fn expression_builds_dag() {
    let mut g = Graph::new();
    let mut vals: Vec<f64> = Vec::new();
    let mut grads: Vec<f64> = Vec::new();
    let a = leaf(&mut g, &mut vals, &mut grads, 0.1_f64.sqrt());
    let b = leaf(&mut g, &mut vals, &mut grads, 0.2);
    let c = leaf(&mut g, &mut vals, &mut grads, 0.3);
    let p = power(&mut g, &mut vals, &mut grads, a, 2.0);
    let m = product(&mut g, &mut vals, &mut grads, b, c);
    let s = sum(&mut g, &mut vals, &mut grads, p, m);
    let x = tanh(&mut g, &mut vals, &mut grads, s);

    assert_eq!(vals[x], 0.15864850429749888);
    match g.op_at(x) {
        Op::Tanh(xi) => {
            assert_eq!(vals[xi], 0.16);
            match g.op_at(xi) {
                Op::Sum(si, yi) => {
                    assert_eq!(vals[si], 0.1);
                    match g.op_at(si) {
                        Op::Power(pb, pe) => {
                            assert_eq!(vals[pb], 0.1_f64.sqrt());
                            assert_eq!(vals[pe], 2.0);
                        }
                        _ => panic!("unexpected Op"),
                    }
                    assert_eq!(vals[yi], 0.06);
                    match g.op_at(yi) {
                        Op::Product(ma, mb) => {
                            assert_eq!(vals[ma], 0.2);
                            assert_eq!(vals[mb], 0.3);
                        }
                        _ => panic!("unexpected Op"),
                    }
                }
                _ => panic!("unexpected Op"),
            }
        }
        _ => panic!("unexpected Op"),
    }
}

#[test]
fn backward_on_sum_should_add_gradient_to_the_variables() {
    let mut g = Graph::new();
    let mut vals: Vec<f64> = Vec::new();
    let mut grads: Vec<f64> = Vec::new();
    let a = leaf_with_grad(&mut g, &mut vals, &mut grads, 0.0, 0.1);
    let b = leaf_with_grad(&mut g, &mut vals, &mut grads, 0.0, 0.2);
    let x = sum(&mut g, &mut vals, &mut grads, a, b);

    backward(&g, &vals, &mut grads, x);

    assert_eq!(grads[a], 1.1);
    assert_eq!(grads[b], 1.2);
}

#[test]
fn backward_on_mul_should_add_gradient_to_the_variables() {
    let mut g = Graph::new();
    let mut vals: Vec<f64> = Vec::new();
    let mut grads: Vec<f64> = Vec::new();
    let a = leaf_with_grad(&mut g, &mut vals, &mut grads, 0.5, 0.05);
    let b = leaf_with_grad(&mut g, &mut vals, &mut grads, 0.25, 0.05);
    let x = product(&mut g, &mut vals, &mut grads, a, b);

    backward(&g, &vals, &mut grads, x);

    assert_eq!(grads[a], 0.3);
    assert_eq!(grads[b], 0.55);
}

#[test]
fn backward_on_tanh_should_add_gradient_to_the_variable() {
    let mut g = Graph::new();
    let mut vals: Vec<f64> = Vec::new();
    let mut grads: Vec<f64> = Vec::new();
    let a = leaf_with_grad(&mut g, &mut vals, &mut grads, 0.8814, 0.5);
    let x = tanh(&mut g, &mut vals, &mut grads, a);

    backward(&g, &vals, &mut grads, x);

    assert_eq!(grads[a], 0.9999813233768232);
}

#[test]
fn backward_on_pow_should_add_gradient_to_the_variables() {
    let mut g = Graph::new();
    let mut vals: Vec<f64> = Vec::new();
    let mut grads: Vec<f64> = Vec::new();
    let a = leaf_with_grad(&mut g, &mut vals, &mut grads, 2.0, 0.1);
    let x = power(&mut g, &mut vals, &mut grads, a, 3.0);

    backward(&g, &vals, &mut grads, x);

    assert_eq!(grads[a], 12.1);
}

#[test]
fn backward_on_sub_should_add_gradient_to_the_variables() {
    let mut g = Graph::new();
    let mut vals: Vec<f64> = Vec::new();
    let mut grads: Vec<f64> = Vec::new();
    let a = leaf_with_grad(&mut g, &mut vals, &mut grads, 3.0, 0.5);
    let b = leaf_with_grad(&mut g, &mut vals, &mut grads, 2.0, -0.5);
    let x = difference(&mut g, &mut vals, &mut grads, a, b);

    backward(&g, &vals, &mut grads, x);

    assert_eq!(grads[a], 1.5);
    assert_eq!(grads[b], -1.5);
}

#[test]
fn backward_on_div_should_add_gradient_to_the_variables() {
    let mut g = Graph::new();
    let mut vals: Vec<f64> = Vec::new();
    let mut grads: Vec<f64> = Vec::new();
    let a = leaf_with_grad(&mut g, &mut vals, &mut grads, 3.0, 0.1);
    let b = leaf_with_grad(&mut g, &mut vals, &mut grads, 2.0, 0.1);
    let x = quotient(&mut g, &mut vals, &mut grads, a, b);

    backward(&g, &vals, &mut grads, x);

    assert_eq!(grads[a], 0.6);
    assert_eq!(grads[b], -0.65);
}

#[test]
fn backward_on_dag_should_execute_on_topological_sort() {
    let mut g = Graph::new();
    let mut vals: Vec<f64> = Vec::new();
    let mut grads: Vec<f64> = Vec::new();
    let a = leaf(&mut g, &mut vals, &mut grads, 3.0);
    let b = leaf(&mut g, &mut vals, &mut grads, 3.0);
    let c = leaf(&mut g, &mut vals, &mut grads, 2.0);
    let ab = product(&mut g, &mut vals, &mut grads, a, b);
    let cab = product(&mut g, &mut vals, &mut grads, c, ab);
    let x = sum(&mut g, &mut vals, &mut grads, ab, cab);

    backward(&g, &vals, &mut grads, x);

    assert_eq!(grads[a], 9.0);
    assert_eq!(grads[b], 9.0);
    assert_eq!(grads[c], 9.0);
}

#[test]
fn backward_on_leaf_touches_only_the_seed() {
    let mut g = Graph::new();
    let mut vals: Vec<f64> = Vec::new();
    let mut grads: Vec<f64> = Vec::new();
    let a = leaf(&mut g, &mut vals, &mut grads, 5.0);

    assert_eq!(g.backward_schedule(a).len(), 0);
    backward(&g, &vals, &mut grads, a);
    assert_eq!(grads[a], 1.0);
}

#[test]
fn backward_accumulates_across_calls_without_reset() {
    let mut g = Graph::new();
    let mut vals: Vec<f64> = Vec::new();
    let mut grads: Vec<f64> = Vec::new();
    let a = leaf(&mut g, &mut vals, &mut grads, 3.0);
    let b = leaf(&mut g, &mut vals, &mut grads, 4.0);
    let x = sum(&mut g, &mut vals, &mut grads, a, b);

    backward(&g, &vals, &mut grads, x);
    backward(&g, &vals, &mut grads, x);

    assert_eq!(grads[a], 2.0);
    assert_eq!(grads[b], 2.0);
}

#[test]
fn exponent_leaf_receives_no_gradient() {
    let mut g = Graph::new();
    let mut vals: Vec<f64> = Vec::new();
    let mut grads: Vec<f64> = Vec::new();
    let a = leaf(&mut g, &mut vals, &mut grads, 2.0);
    let (e, x) = g.power(a);
    push_const(&mut vals, &mut grads, 3.0);
    eval(&g, &mut vals, &mut grads);

    for s in g.backward_schedule(x) {
        assert_ne!(s.target, e);
    }
    backward(&g, &vals, &mut grads, x);
    assert_eq!(grads[e], 0.0);
    assert_eq!(grads[a], 12.0);
}

#[test]
fn topological_order_visits_shared_nodes_once() {
    let mut g = Graph::new();
    let mut vals: Vec<f64> = Vec::new();
    let mut grads: Vec<f64> = Vec::new();
    let a = leaf(&mut g, &mut vals, &mut grads, 3.0);
    let b = leaf(&mut g, &mut vals, &mut grads, 3.0);
    let c = leaf(&mut g, &mut vals, &mut grads, 2.0);
    let ab = product(&mut g, &mut vals, &mut grads, a, b);
    let cab = product(&mut g, &mut vals, &mut grads, c, ab);
    let x = sum(&mut g, &mut vals, &mut grads, ab, cab);

    let order = g.topological_order(x);

    assert_eq!(order.len(), 6);
    for node in [a, b, c, ab, cab, x] {
        assert_eq!(order.iter().filter(|&&n| n == node).count(), 1);
    }
    assert_eq!(*order.last().unwrap(), x);
    for (k, &node) in order.iter().enumerate() {
        for o in g.operands_of(node) {
            let pos = order.iter().position(|&n| n == o).unwrap();
            assert!(pos < k);
        }
    }
}

#[test]
fn schedule_counts_one_contribution_per_consumer_reference() {
    let mut g = Graph::new();
    let mut vals: Vec<f64> = Vec::new();
    let mut grads: Vec<f64> = Vec::new();
    let a = leaf(&mut g, &mut vals, &mut grads, 3.0);
    let b = leaf(&mut g, &mut vals, &mut grads, 3.0);
    let c = leaf(&mut g, &mut vals, &mut grads, 2.0);
    let ab = product(&mut g, &mut vals, &mut grads, a, b);
    let cab = product(&mut g, &mut vals, &mut grads, c, ab);
    let x = sum(&mut g, &mut vals, &mut grads, ab, cab);
    // `ab` is consumed by two parents, `a` by one, `x` by none; a node
    // multiplied with itself collects both of its references.
    let aa = product(&mut g, &mut vals, &mut grads, a, a);

    let steps = g.backward_schedule(x);
    assert_eq!(steps.iter().filter(|s| s.target == ab).count(), 2);
    assert_eq!(steps.iter().filter(|s| s.target == a).count(), 1);
    assert_eq!(steps.iter().filter(|s| s.target == x).count(), 0);

    let steps_aa = g.backward_schedule(aa);
    assert_eq!(steps_aa.iter().filter(|s| s.target == a).count(), 2);
}

#[test]
fn schedule_settles_a_node_before_reading_it() {
    let mut g = Graph::new();
    let mut vals: Vec<f64> = Vec::new();
    let mut grads: Vec<f64> = Vec::new();
    let a = leaf(&mut g, &mut vals, &mut grads, 3.0);
    let b = leaf(&mut g, &mut vals, &mut grads, 3.0);
    let c = leaf(&mut g, &mut vals, &mut grads, 2.0);
    let ab = product(&mut g, &mut vals, &mut grads, a, b);
    let cab = product(&mut g, &mut vals, &mut grads, c, ab);
    let x = sum(&mut g, &mut vals, &mut grads, ab, cab);

    let steps = g.backward_schedule(x);
    for (i, s) in steps.iter().enumerate() {
        for (j, t) in steps.iter().enumerate() {
            if s.target == t.source {
                assert!(i < j);
            }
        }
    }
}

/// The centered finite-difference derivative of the expression rooted where
/// `build` says, with respect to the leaf `wrt`, at step `h`.
fn finite_difference(build: fn(&mut Graph, &mut Vec<f64>, &mut Vec<f64>, &[f64]) -> usize, params: &[f64], wrt: usize, h: f64) -> f64 {
    let mut up = params.to_vec();
    up[wrt] += h;
    let mut down = params.to_vec();
    down[wrt] -= h;
    let mut g1 = Graph::new();
    let mut v1: Vec<f64> = Vec::new();
    let mut gr1: Vec<f64> = Vec::new();
    let r1 = build(&mut g1, &mut v1, &mut gr1, &up);
    let mut g2 = Graph::new();
    let mut v2: Vec<f64> = Vec::new();
    let mut gr2: Vec<f64> = Vec::new();
    let r2 = build(&mut g2, &mut v2, &mut gr2, &down);
    (v1[r1] - v2[r2]) / (2.0 * h)
}

/// Checks the analytic gradient of every parameter leaf against the centered
/// finite difference.
fn assert_gradient_matches(
    build: fn(&mut Graph, &mut Vec<f64>, &mut Vec<f64>, &[f64]) -> usize,
    params: &[f64],
) {
    let mut g = Graph::new();
    let mut vals: Vec<f64> = Vec::new();
    let mut grads: Vec<f64> = Vec::new();
    let root = build(&mut g, &mut vals, &mut grads, params);
    backward(&g, &vals, &mut grads, root);
    for wrt in 0..params.len() {
        let fd = finite_difference(build, params, wrt, 1e-6);
        assert!(
            (grads[wrt] - fd).abs() < 1e-6,
            "gradient {} of leaf {} is not {}",
            grads[wrt],
            wrt,
            fd
        );
    }
}

#[test]
fn gradient_matches_finite_difference_for_sum() {
    fn build(g: &mut Graph, v: &mut Vec<f64>, gr: &mut Vec<f64>, p: &[f64]) -> usize {
        let a = leaf(g, v, gr, p[0]);
        let b = leaf(g, v, gr, p[1]);
        sum(g, v, gr, a, b)
    }
    assert_gradient_matches(build, &[0.7, -1.3]);
}

#[test]
fn gradient_matches_finite_difference_for_product() {
    fn build(g: &mut Graph, v: &mut Vec<f64>, gr: &mut Vec<f64>, p: &[f64]) -> usize {
        let a = leaf(g, v, gr, p[0]);
        let b = leaf(g, v, gr, p[1]);
        product(g, v, gr, a, b)
    }
    assert_gradient_matches(build, &[0.7, -1.3]);
}

#[test]
fn gradient_matches_finite_difference_for_power() {
    fn build(g: &mut Graph, v: &mut Vec<f64>, gr: &mut Vec<f64>, p: &[f64]) -> usize {
        let a = leaf(g, v, gr, p[0]);
        power(g, v, gr, a, 3.0)
    }
    assert_gradient_matches(build, &[1.7]);
}

#[test]
fn gradient_matches_finite_difference_for_tanh() {
    fn build(g: &mut Graph, v: &mut Vec<f64>, gr: &mut Vec<f64>, p: &[f64]) -> usize {
        let a = leaf(g, v, gr, p[0]);
        tanh(g, v, gr, a)
    }
    assert_gradient_matches(build, &[0.4]);
}

#[test]
fn gradient_matches_finite_difference_for_difference() {
    fn build(g: &mut Graph, v: &mut Vec<f64>, gr: &mut Vec<f64>, p: &[f64]) -> usize {
        let a = leaf(g, v, gr, p[0]);
        let b = leaf(g, v, gr, p[1]);
        difference(g, v, gr, a, b)
    }
    assert_gradient_matches(build, &[0.7, -1.3]);
}

#[test]
fn gradient_matches_finite_difference_for_quotient() {
    fn build(g: &mut Graph, v: &mut Vec<f64>, gr: &mut Vec<f64>, p: &[f64]) -> usize {
        let a = leaf(g, v, gr, p[0]);
        let b = leaf(g, v, gr, p[1]);
        quotient(g, v, gr, a, b)
    }
    assert_gradient_matches(build, &[0.7, 1.3]);
}

#[test]
fn gradient_matches_finite_difference_for_shared_subexpression() {
    fn build(g: &mut Graph, v: &mut Vec<f64>, gr: &mut Vec<f64>, p: &[f64]) -> usize {
        let a = leaf(g, v, gr, p[0]);
        let b = leaf(g, v, gr, p[1]);
        let ab = product(g, v, gr, a, b);
        let t = tanh(g, v, gr, ab);
        let s = sum(g, v, gr, ab, t);
        power(g, v, gr, s, 2.0)
    }
    assert_gradient_matches(build, &[0.3, 0.5]);
}
