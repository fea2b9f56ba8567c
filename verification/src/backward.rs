//! The backward engine.
//!
//! A backward pass over a DAG rooted at some node seeds that node's gradient
//! with one and then walks the topological order in reverse; at each node it
//! applies the node's producer-specific local-derivative rule, pushing a
//! weighted contribution into each operand's gradient accumulator.  This
//! module computes that walk as an explicit schedule: the exact sequence of
//! accumulation steps, each naming the node whose gradient is read, the
//! operand whose gradient is increased, and the local-derivative factor to
//! weigh the contribution with.  The embedder, who owns the numeric arrays,
//! performs the additions in the scheduled order.

use vstd::prelude::*;

use crate::graph::{graph_wf, op_wf, operands, Graph, Op};
use crate::topo::is_topological_order;

verus! {

/// The local-derivative factor of one accumulation step, to be evaluated by
/// the embedder against the node values it holds.
#[derive(Clone, Copy, Debug, PartialEq, Eq, Structural)]
pub enum Factor {
    /// The factor one: a `Sum` node passes its gradient through unchanged.
    One,
    /// The value of the named node: a `Product` node weighs the gradient
    /// pushed into one operand by the other operand's value.
    ValueOf(usize),
    /// The power rule `n * base^(n - 1)` for the named base node and
    /// exponent leaf.
    PowerRule(usize, usize),
    /// The factor `1 - v^2` where `v` is the value of the named `Tanh` node
    /// itself: the already computed forward value is reused.
    TanhRule(usize),
}

/// One gradient accumulation: the gradient of `target` is increased by the
/// gradient of `source` times the local-derivative `factor`.
#[derive(Clone, Copy, Debug, PartialEq, Eq, Structural)]
pub struct GradStep {
    /// The operand whose gradient accumulator receives the contribution.
    pub target: usize,
    /// The node whose (already settled) gradient is propagated.
    pub source: usize,
    /// The local derivative of `source`'s value with respect to `target`'s.
    pub factor: Factor,
}

/// The accumulation steps that processing node `i` emits, one per
/// gradient-receiving operand reference.  A `Leaf` emits none.  A `Power`
/// node emits a step for its base only: the exponent leaf deliberately
/// receives no gradient, because exponents are constants, never trained.
pub open spec fn local_steps(op: Op, i: usize) -> Seq<GradStep> {
    match op {
        Op::Leaf => seq![],
        Op::Sum(a, b) => seq![
            GradStep { target: a, source: i, factor: Factor::One },
            GradStep { target: b, source: i, factor: Factor::One },
        ],
        Op::Product(a, b) => seq![
            GradStep { target: a, source: i, factor: Factor::ValueOf(b) },
            GradStep { target: b, source: i, factor: Factor::ValueOf(a) },
        ],
        Op::Power(base, exponent) => seq![
            GradStep { target: base, source: i, factor: Factor::PowerRule(base, exponent) },
        ],
        Op::Tanh(a) => seq![GradStep { target: a, source: i, factor: Factor::TanhRule(i) }],
    }
}

/// The schedule obtained by processing `nodes` front to back, emitting each
/// node's local steps in turn.
pub open spec fn schedule_of(ops: Seq<Op>, nodes: Seq<usize>) -> Seq<GradStep>
    decreases nodes.len(),
{
    if nodes.len() == 0 {
        seq![]
    } else {
        local_steps(ops[nodes[0] as int], nodes[0]) + schedule_of(ops, nodes.drop_first())
    }
}

/// A step only ever names nodes of the graph, and the exponent named by a
/// power rule is a `Leaf`.
pub open spec fn step_wf(ops: Seq<Op>, s: GradStep) -> bool {
    &&& (s.target as int) < ops.len()
    &&& (s.source as int) < ops.len()
    &&& match s.factor {
        Factor::One => true,
        Factor::ValueOf(v) => (v as int) < ops.len(),
        Factor::PowerRule(base, exponent) => (base as int) < ops.len() && (exponent as int)
            < ops.len() && ops[exponent as int] is Leaf,
        Factor::TanhRule(t) => (t as int) < ops.len(),
    }
}

/// The number of accumulation steps in `steps` that push a contribution
/// into node `j`.
pub open spec fn steps_into(steps: Seq<GradStep>, j: usize) -> nat
    decreases steps.len(),
{
    if steps.len() == 0 {
        0
    } else {
        (if steps[0].target == j {
            1nat
        } else {
            0nat
        }) + steps_into(steps.drop_first(), j)
    }
}

/// The number of gradient-receiving references that a node with producer
/// `op` makes to node `j`: both operands of a sum or a product count, a
/// shared operand counts twice, the base of a power counts, the exponent of
/// a power never does, and a leaf references nothing.
pub open spec fn grad_refs_of(op: Op, j: usize) -> nat {
    match op {
        Op::Leaf => 0,
        Op::Sum(a, b) => (if a == j {
            1nat
        } else {
            0nat
        }) + (if b == j {
            1nat
        } else {
            0nat
        }),
        Op::Product(a, b) => (if a == j {
            1nat
        } else {
            0nat
        }) + (if b == j {
            1nat
        } else {
            0nat
        }),
        Op::Power(base, _) => if base == j {
            1nat
        } else {
            0nat
        },
        Op::Tanh(a) => if a == j {
            1nat
        } else {
            0nat
        },
    }
}

/// The total number of gradient-receiving references to `j` made by the
/// nodes of `nodes`.
pub open spec fn grad_refs_total(ops: Seq<Op>, nodes: Seq<usize>, j: usize) -> nat
    decreases nodes.len(),
{
    if nodes.len() == 0 {
        0
    } else {
        grad_refs_of(ops[nodes[0] as int], j) + grad_refs_total(ops, nodes.drop_first(), j)
    }
}

proof fn lemma_steps_into_one(s: GradStep, j: usize)
    ensures
        steps_into(seq![s], j) == if s.target == j {
            1nat
        } else {
            0nat
        },
{
    let e = Seq::<GradStep>::empty();
    assert(steps_into(e, j) == 0);
    assert(seq![s].drop_first() =~= e);
    assert(seq![s][0] == s);
}

proof fn lemma_steps_into_two(s1: GradStep, s2: GradStep, j: usize)
    ensures
        steps_into(seq![s1, s2], j) == (if s1.target == j {
            1nat
        } else {
            0nat
        }) + (if s2.target == j {
            1nat
        } else {
            0nat
        }),
{
    assert(seq![s1, s2].drop_first() =~= seq![s2]);
    lemma_steps_into_one(s2, j);
}

/// Counting contributions distributes over concatenation of schedules.
proof fn lemma_steps_into_add(a: Seq<GradStep>, b: Seq<GradStep>, j: usize)
    ensures
        steps_into(a + b, j) == steps_into(a, j) + steps_into(b, j),
    decreases a.len(),
{
    if a.len() == 0 {
        assert(a + b =~= b);
    } else {
        assert((a + b).drop_first() =~= a.drop_first() + b);
        assert((a + b)[0] == a[0]);
        lemma_steps_into_add(a.drop_first(), b, j);
    }
}

/// The local steps of one node contribute to `j` exactly once per
/// gradient-receiving reference.
proof fn lemma_local_steps_into(op: Op, i: usize, j: usize)
    ensures
        steps_into(local_steps(op, i), j) == grad_refs_of(op, j),
{
    match op {
        Op::Leaf => {},
        Op::Sum(a, b) => {
            lemma_steps_into_two(
                GradStep { target: a, source: i, factor: Factor::One },
                GradStep { target: b, source: i, factor: Factor::One },
                j,
            );
        },
        Op::Product(a, b) => {
            lemma_steps_into_two(
                GradStep { target: a, source: i, factor: Factor::ValueOf(b) },
                GradStep { target: b, source: i, factor: Factor::ValueOf(a) },
                j,
            );
        },
        Op::Power(base, exponent) => {
            lemma_steps_into_one(
                GradStep { target: base, source: i, factor: Factor::PowerRule(base, exponent) },
                j,
            );
        },
        Op::Tanh(a) => {
            lemma_steps_into_one(
                GradStep { target: a, source: i, factor: Factor::TanhRule(i) },
                j,
            );
        },
    }
}

/// Accumulation law: a backward schedule pushes into node `j` exactly one
/// contribution per gradient-receiving reference to `j` among the processed
/// nodes.  In particular, when the processed nodes are a topological order —
/// where every reachable node occurs exactly once — a node referenced as an
/// operand by `k` distinct consumers receives exactly `k` contributions, so
/// its accumulator ends up holding the sum of the `k` independent partial
/// derivatives (on top of whatever it held before the pass).
pub proof fn lemma_gradient_accumulation(ops: Seq<Op>, nodes: Seq<usize>, j: usize)
    ensures
        steps_into(schedule_of(ops, nodes), j) == grad_refs_total(ops, nodes, j),
    decreases nodes.len(),
{
    if nodes.len() > 0 {
        let first = local_steps(ops[nodes[0] as int], nodes[0]);
        lemma_steps_into_add(first, schedule_of(ops, nodes.drop_first()), j);
        lemma_local_steps_into(ops[nodes[0] as int], nodes[0], j);
        lemma_gradient_accumulation(ops, nodes.drop_first(), j);
    }
}

/// Appending one node to the processed sequence appends its local steps to
/// the schedule.
proof fn lemma_schedule_push(ops: Seq<Op>, nodes: Seq<usize>, x: usize)
    ensures
        schedule_of(ops, nodes.push(x)) == schedule_of(ops, nodes) + local_steps(
            ops[x as int],
            x,
        ),
    decreases nodes.len(),
{
    if nodes.len() == 0 {
        assert(nodes.push(x).drop_first() =~= nodes);
        assert(schedule_of(ops, nodes.push(x)) =~= schedule_of(ops, nodes) + local_steps(
            ops[x as int],
            x,
        ));
    } else {
        assert(nodes.push(x).drop_first() =~= nodes.drop_first().push(x));
        lemma_schedule_push(ops, nodes.drop_first(), x);
        assert(schedule_of(ops, nodes.push(x)) =~= schedule_of(ops, nodes) + local_steps(
            ops[x as int],
            x,
        ));
    }
}

/// The schedule splits at any node boundary.
proof fn lemma_schedule_split(ops: Seq<Op>, nodes: Seq<usize>, m: int)
    requires
        0 <= m <= nodes.len(),
    ensures
        schedule_of(ops, nodes) == schedule_of(ops, nodes.subrange(0, m)) + schedule_of(
            ops,
            nodes.subrange(m, nodes.len() as int),
        ),
    decreases nodes.len(),
{
    if m == 0 {
        assert(nodes.subrange(0, 0) =~= Seq::<usize>::empty());
        assert(nodes.subrange(0, nodes.len() as int) =~= nodes);
        assert(schedule_of(ops, nodes.subrange(0, 0)) + schedule_of(ops, nodes) =~= schedule_of(
            ops,
            nodes,
        ));
    } else {
        let rest = nodes.drop_first();
        lemma_schedule_split(ops, rest, m - 1);
        let first = local_steps(ops[nodes[0] as int], nodes[0]);
        let pre = nodes.subrange(0, m);
        assert(pre[0] == nodes[0]);
        assert(pre.drop_first() =~= rest.subrange(0, m - 1));
        assert(nodes.subrange(m, nodes.len() as int) =~= rest.subrange(m - 1, rest.len() as int));
        assert(schedule_of(ops, pre) == first + schedule_of(ops, rest.subrange(0, m - 1)));
        assert(schedule_of(ops, nodes) == first + schedule_of(ops, rest));
        assert(first + (schedule_of(ops, rest.subrange(0, m - 1)) + schedule_of(
            ops,
            rest.subrange(m - 1, rest.len() as int),
        )) =~= (first + schedule_of(ops, rest.subrange(0, m - 1))) + schedule_of(
            ops,
            rest.subrange(m - 1, rest.len() as int),
        ));
    }
}

/// Prefixes of the processed nodes give prefixes of the schedule.
proof fn lemma_schedule_prefix_len_monotone(ops: Seq<Op>, nodes: Seq<usize>, m1: int, m2: int)
    requires
        0 <= m1 <= m2 <= nodes.len(),
    ensures
        schedule_of(ops, nodes.subrange(0, m1)).len() <= schedule_of(
            ops,
            nodes.subrange(0, m2),
        ).len(),
{
    let pre2 = nodes.subrange(0, m2);
    lemma_schedule_split(ops, pre2, m1);
    assert(pre2.subrange(0, m1) =~= nodes.subrange(0, m1));
}

/// Every position of the schedule lies in the block of exactly one
/// processed node; the returned `m` locates that node.
proof fn lemma_schedule_block(ops: Seq<Op>, nodes: Seq<usize>, x: int) -> (m: int)
    requires
        0 <= x < schedule_of(ops, nodes).len(),
    ensures
        0 <= m < nodes.len(),
        schedule_of(ops, nodes.subrange(0, m)).len() <= x,
        x < schedule_of(ops, nodes.subrange(0, m + 1)).len(),
        schedule_of(ops, nodes.subrange(0, m + 1)) == schedule_of(ops, nodes.subrange(0, m))
            + local_steps(ops[nodes[m] as int], nodes[m]),
        schedule_of(ops, nodes)[x] == local_steps(ops[nodes[m] as int], nodes[m])[x
            - schedule_of(ops, nodes.subrange(0, m)).len()],
    decreases nodes.len(),
{
    assert(nodes.len() > 0);
    let first = local_steps(ops[nodes[0] as int], nodes[0]);
    let rest = nodes.drop_first();
    assert(schedule_of(ops, nodes) == first + schedule_of(ops, rest));
    if x < first.len() {
        assert(nodes.subrange(0, 0) =~= Seq::<usize>::empty());
        assert(schedule_of(ops, nodes.subrange(0, 0)).len() == 0);
        let pre1 = nodes.subrange(0, 1);
        assert(pre1[0] == nodes[0]);
        assert(pre1.drop_first() =~= Seq::<usize>::empty());
        assert(schedule_of(ops, pre1) == first + schedule_of(ops, pre1.drop_first()));
        assert(schedule_of(ops, nodes.subrange(0, 0)) =~= Seq::<GradStep>::empty());
        assert(schedule_of(ops, nodes.subrange(0, 0)) + first =~= first);
        assert(schedule_of(ops, nodes)[x] == first[x]);
        0
    } else {
        let m0 = lemma_schedule_block(ops, rest, x - first.len());
        let m = m0 + 1;
        let pre = nodes.subrange(0, m);
        assert(pre[0] == nodes[0]);
        assert(pre.drop_first() =~= rest.subrange(0, m0));
        assert(schedule_of(ops, pre) == first + schedule_of(ops, rest.subrange(0, m0)));
        let pre2 = nodes.subrange(0, m + 1);
        assert(pre2[0] == nodes[0]);
        assert(pre2.drop_first() =~= rest.subrange(0, m0 + 1));
        assert(schedule_of(ops, pre2) == first + schedule_of(ops, rest.subrange(0, m0 + 1)));
        assert(nodes[m] == rest[m0]);
        let block = local_steps(ops[rest[m0] as int], rest[m0]);
        assert(first + (schedule_of(ops, rest.subrange(0, m0)) + block) =~= (first
            + schedule_of(ops, rest.subrange(0, m0))) + block);
        assert(schedule_of(ops, nodes)[x] == schedule_of(ops, rest)[x - first.len()]);
        m
    }
}

/// Every step that processing node `i` emits reads `i`'s own gradient and
/// pushes into one of `i`'s operands.
proof fn lemma_local_step_shape(op: Op, i: usize, t: int)
    requires
        0 <= t < local_steps(op, i).len(),
    ensures
        local_steps(op, i)[t].source == i,
        operands(op).contains(local_steps(op, i)[t].target),
{
    match op {
        Op::Leaf => {},
        Op::Sum(a, b) => {
            assert(operands(op)[0] == a);
            assert(operands(op)[1] == b);
        },
        Op::Product(a, b) => {
            assert(operands(op)[0] == a);
            assert(operands(op)[1] == b);
        },
        Op::Power(base, _) => {
            assert(operands(op)[0] == base);
        },
        Op::Tanh(a) => {
            assert(operands(op)[0] == a);
        },
    }
}

/// Processing-order law: in the schedule of a reversed topological order,
/// every contribution pushed *into* a node comes strictly before every step
/// that *reads* that node's gradient.  A node therefore has received and
/// accumulated all of its incoming gradient from all of its consumers before
/// it passes anything on to its own operands — the essential reason the
/// backward pass must walk a reverse topological order and not any order.
pub proof fn lemma_accumulate_before_propagate(
    ops: Seq<Op>,
    root: usize,
    order: Seq<usize>,
    a: int,
    b: int,
)
    requires
        graph_wf(ops),
        is_topological_order(ops, root, order),
        0 <= a < schedule_of(ops, order.reverse()).len(),
        0 <= b < schedule_of(ops, order.reverse()).len(),
        schedule_of(ops, order.reverse())[a].target == schedule_of(ops, order.reverse())[b].source,
    ensures
        a < b,
{
    let nodes = order.reverse();
    let sched = schedule_of(ops, nodes);
    let ma = lemma_schedule_block(ops, nodes, a);
    let mb = lemma_schedule_block(ops, nodes, b);
    let ca = nodes[ma];
    let cb = nodes[mb];
    let ta = a - schedule_of(ops, nodes.subrange(0, ma)).len();
    let tb = b - schedule_of(ops, nodes.subrange(0, mb)).len();
    assert(order[order.len() - 1 - ma] == ca);
    assert(order[order.len() - 1 - mb] == cb);
    assert((ca as int) < ops.len());
    assert((cb as int) < ops.len());
    lemma_local_step_shape(ops[ca as int], ca, ta);
    lemma_local_step_shape(ops[cb as int], cb, tb);
    let j = sched[b].source;
    assert(cb == j);
    assert(operands(ops[ca as int]).contains(j));
    let idx = choose|idx: int|
        0 <= idx < operands(ops[ca as int]).len() && operands(ops[ca as int])[idx] == j;
    if ma == mb {
        assert(op_wf(ops, ca as int));
        assert((operands(ops[ca as int])[idx] as int) < ca as int);
        assert(false);
    }
    let pa = order.len() - 1 - ma;
    let pb = order.len() - 1 - mb;
    assert(operands(ops[order[pa] as int])[idx] == j);
    assert(order.subrange(0, pa).contains(j));
    let l = choose|l: int| 0 <= l < pa && order.subrange(0, pa)[l] == j;
    assert(order[l] == j);
    assert(l == pb) by {
        if l != pb {
            assert(order[l] != order[pb]);
        }
    }
    assert(ma < mb);
    lemma_schedule_prefix_len_monotone(ops, nodes, ma + 1, mb);
}

impl Graph {
    /// The gradient accumulation steps for processing the nodes of `order`
    /// in reverse: the schedule of the backward pass once `order` is a
    /// topological order.
    pub fn gradient_steps(&self, order: &Vec<usize>) -> (steps: Vec<GradStep>)
        requires
            self.wf(),
            forall|k: int| 0 <= k < order@.len() ==> (#[trigger] order@[k] as int) < self@.len(),
        ensures
            steps@ == schedule_of(self@, order@.reverse()),
            forall|t: int| 0 <= t < steps@.len() ==> step_wf(self@, #[trigger] steps@[t]),
    {
        let n = order.len();
        let mut steps: Vec<GradStep> = Vec::new();
        let mut k = n;
        proof {
            assert(order@.subrange(n as int, n as int) =~= Seq::<usize>::empty());
            assert(order@.subrange(n as int, n as int).reverse()
                =~= Seq::<usize>::empty());
        }
        while k > 0
            invariant
                self.wf(),
                k <= n,
                n == order@.len(),
                forall|l: int| 0 <= l < order@.len() ==> (#[trigger] order@[l] as int)
                    < self@.len(),
                steps@ == schedule_of(
                    self@,
                    order@.subrange(k as int, n as int).reverse(),
                ),
                forall|t: int| 0 <= t < steps@.len() ==> step_wf(self@, #[trigger] steps@[t]),
            decreases k,
        {
            k = k - 1;
            let i = order[k];
            let ghost steps0 = steps@;
            let ghost rev0 = order@.subrange(k + 1, n as int).reverse();
            proof {
                assert(op_wf(self@, i as int));
            }
            match self.op_at(i) {
                Op::Leaf => {},
                Op::Sum(a, b) => {
                    steps.push(GradStep { target: a, source: i, factor: Factor::One });
                    steps.push(GradStep { target: b, source: i, factor: Factor::One });
                    proof {
                        assert(operands(self@[i as int])[0] == a);
                        assert(operands(self@[i as int])[1] == b);
                    }
                },
                Op::Product(a, b) => {
                    steps.push(GradStep { target: a, source: i, factor: Factor::ValueOf(b) });
                    steps.push(GradStep { target: b, source: i, factor: Factor::ValueOf(a) });
                    proof {
                        assert(operands(self@[i as int])[0] == a);
                        assert(operands(self@[i as int])[1] == b);
                    }
                },
                Op::Power(base, exponent) => {
                    steps.push(
                        GradStep {
                            target: base,
                            source: i,
                            factor: Factor::PowerRule(base, exponent),
                        },
                    );
                    proof {
                        assert(operands(self@[i as int])[0] == base);
                        assert(operands(self@[i as int])[1] == exponent);
                    }
                },
                Op::Tanh(a) => {
                    steps.push(GradStep { target: a, source: i, factor: Factor::TanhRule(i) });
                    proof {
                        assert(operands(self@[i as int])[0] == a);
                    }
                },
            }
            proof {
                assert(steps@ =~= steps0 + local_steps(self@[i as int], i));
                lemma_schedule_push(self@, rev0, i);
                assert(order@.subrange(k as int, n as int).reverse() =~= rev0.push(i));
            }
        }
        proof {
            assert(order@.subrange(0, n as int) =~= order@);
        }
        steps
    }

    /// The full backward pass over the subgraph reachable from `root`: the
    /// schedule lists, for some topological order of that subgraph taken in
    /// reverse (so `root` is processed first), every local-derivative
    /// contribution in processing order.  The embedder seeds `root`'s
    /// gradient accumulator with one and then performs the steps in order;
    /// gradients of nodes unreachable from `root` are never touched, and
    /// nothing is ever reset — contributions only accumulate.
    pub fn backward_schedule(&self, root: usize) -> (steps: Vec<GradStep>)
        requires
            self.wf(),
            root < self@.len(),
        ensures
            exists|ord: Seq<usize>|
                {
                    &&& #[trigger] is_topological_order(self@, root, ord)
                    &&& ord.len() > 0
                    &&& ord.last() == root
                    &&& steps@ == schedule_of(self@, ord.reverse())
                },
            forall|t: int| 0 <= t < steps@.len() ==> step_wf(self@, #[trigger] steps@[t]),
    {
        let order = self.topological_order(root);
        let steps = self.gradient_steps(&order);
        proof {
            assert(is_topological_order(self@, root, order@) && order@.len() > 0
                && order@.last() == root && steps@ == schedule_of(self@, order@.reverse()));
        }
        steps
    }
}

} // verus!
