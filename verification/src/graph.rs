//! The graph arena: node descriptors and the builder operations that grow
//! the DAG one node at a time.

use vstd::prelude::*;

verus! {

/// The producer of a node: the operation that computed the node's value from
/// its operands, or `Leaf` for an input or trainable parameter.  Operands are
/// arena indices of previously created nodes.
#[derive(Clone, Copy, Debug, PartialEq, Eq, Structural)]
pub enum Op {
    /// No producer: the node's value is supplied by the embedder.
    Leaf,
    /// Addition of the two operands.
    Sum(usize, usize),
    /// Multiplication of the two operands.
    Product(usize, usize),
    /// The first operand raised to the value of the second operand.  The
    /// exponent is itself wrapped as a node, but it is always a `Leaf` and it
    /// never receives a gradient contribution: it is a frozen constant.
    Power(usize, usize),
    /// Hyperbolic tangent of the operand.
    Tanh(usize),
}

/// The operand indices of a producer, left to right.
pub open spec fn operands(op: Op) -> Seq<usize> {
    match op {
        Op::Leaf => seq![],
        Op::Sum(a, b) => seq![a, b],
        Op::Product(a, b) => seq![a, b],
        Op::Power(base, exponent) => seq![base, exponent],
        Op::Tanh(a) => seq![a],
    }
}

/// A node at position `i` is well formed when all of its operand edges point
/// strictly below `i`; a `Power` node additionally keeps its exponent wrapped
/// as a `Leaf`.
pub open spec fn op_wf(ops: Seq<Op>, i: int) -> bool {
    &&& forall|k: int|
        0 <= k < operands(ops[i]).len() ==> (#[trigger] operands(ops[i])[k] as int) < i
    &&& ops[i] matches Op::Power(_, exponent) ==> ops[exponent as int] is Leaf
}

/// The arena is well formed when every node is.  Edges always point from a
/// node to strictly smaller indices, which makes cycles impossible to
/// express.
pub open spec fn graph_wf(ops: Seq<Op>) -> bool {
    forall|i: int| 0 <= i < ops.len() ==> #[trigger] op_wf(ops, i)
}

/// Appending a node whose operands all point into the existing arena (and
/// whose exponent, for a `Power` node, is an existing `Leaf`) preserves well
/// formedness: the nodes already present are untouched, and the new node's
/// edges point strictly below its own index.
proof fn lemma_push_preserves_wf(ops: Seq<Op>, op: Op)
    requires
        graph_wf(ops),
        forall|k: int| 0 <= k < operands(op).len() ==> (#[trigger] operands(op)[k] as int) < ops.len(),
        op matches Op::Power(_, exponent) ==> ops[exponent as int] is Leaf,
    ensures
        graph_wf(ops.push(op)),
{
    let grown = ops.push(op);
    assert forall|i: int| 0 <= i < grown.len() implies op_wf(grown, i) by {
        if i < ops.len() {
            assert(op_wf(ops, i));
            assert(grown[i] == ops[i]);
            match ops[i] {
                Op::Power(_, exponent) => {
                    assert(operands(ops[i])[1] == exponent);
                    assert((exponent as int) < i);
                    assert(grown[exponent as int] == ops[exponent as int]);
                },
                _ => {},
            }
        } else {
            assert(grown[i] == op);
            match op {
                Op::Power(_, exponent) => {
                    assert(operands(op)[1] == exponent);
                    assert((exponent as int) < ops.len());
                    assert(grown[exponent as int] == ops[exponent as int]);
                },
                _ => {},
            }
        }
    }
}

/// The expression DAG.  Nodes are addressed by the index at which they were
/// created; the structure is purely additive and a node's producer edges
/// never change after construction.
pub struct Graph {
    ops: Vec<Op>,
}

impl View for Graph {
    type V = Seq<Op>;

    closed spec fn view(&self) -> Seq<Op> {
        self.ops@
    }
}

impl Graph {
    /// Every graph built through the public constructors satisfies this
    /// invariant.
    pub open spec fn wf(&self) -> bool {
        graph_wf(self@)
    }

    /// An empty arena.
    pub fn new() -> (g: Graph)
        ensures
            g.wf(),
            g@ == Seq::<Op>::empty(),
    {
        Graph { ops: Vec::new() }
    }

    /// The number of nodes created so far.
    pub fn len(&self) -> (n: usize)
        ensures
            n == self@.len(),
    {
        self.ops.len()
    }

    /// The producer of node `i`.
    pub fn op_at(&self, i: usize) -> (op: Op)
        requires
            i < self@.len(),
        ensures
            op == self@[i as int],
    {
        self.ops[i]
    }

    /// The operand indices of node `i`, left to right.
    pub fn operands_of(&self, i: usize) -> (r: Vec<usize>)
        requires
            i < self@.len(),
        ensures
            r@ == operands(self@[i as int]),
    {
        let mut r: Vec<usize> = Vec::new();
        match self.op_at(i) {
            Op::Leaf => {},
            Op::Sum(a, b) => {
                r.push(a);
                r.push(b);
            },
            Op::Product(a, b) => {
                r.push(a);
                r.push(b);
            },
            Op::Power(base, exponent) => {
                r.push(base);
                r.push(exponent);
            },
            Op::Tanh(a) => {
                r.push(a);
            },
        }
        proof {
            assert(r@ =~= operands(self@[i as int]));
        }
        r
    }

    /// A fresh leaf node.  The embedder pairs the returned index with the
    /// leaf's numeric value; the graph itself records only the structure.
    pub fn leaf(&mut self) -> (i: usize)
        requires
            old(self).wf(),
        ensures
            final(self).wf(),
            i == old(self)@.len(),
            final(self)@ == old(self)@.push(Op::Leaf),
    {
        let i = self.ops.len();
        proof {
            lemma_push_preserves_wf(self.ops@, Op::Leaf);
        }
        self.ops.push(Op::Leaf);
        i
    }

    /// A node adding `a` and `b`.
    pub fn sum(&mut self, a: usize, b: usize) -> (i: usize)
        requires
            old(self).wf(),
            a < old(self)@.len(),
            b < old(self)@.len(),
        ensures
            final(self).wf(),
            i == old(self)@.len(),
            final(self)@ == old(self)@.push(Op::Sum(a, b)),
    {
        let i = self.ops.len();
        proof {
            lemma_push_preserves_wf(self.ops@, Op::Sum(a, b));
        }
        self.ops.push(Op::Sum(a, b));
        i
    }

    /// A node multiplying `a` and `b`.
    pub fn product(&mut self, a: usize, b: usize) -> (i: usize)
        requires
            old(self).wf(),
            a < old(self)@.len(),
            b < old(self)@.len(),
        ensures
            final(self).wf(),
            i == old(self)@.len(),
            final(self)@ == old(self)@.push(Op::Product(a, b)),
    {
        let i = self.ops.len();
        proof {
            lemma_push_preserves_wf(self.ops@, Op::Product(a, b));
        }
        self.ops.push(Op::Product(a, b));
        i
    }

    /// A node applying the hyperbolic tangent to `a`.
    pub fn tanh(&mut self, a: usize) -> (i: usize)
        requires
            old(self).wf(),
            a < old(self)@.len(),
        ensures
            final(self).wf(),
            i == old(self)@.len(),
            final(self)@ == old(self)@.push(Op::Tanh(a)),
    {
        let i = self.ops.len();
        proof {
            lemma_push_preserves_wf(self.ops@, Op::Tanh(a));
        }
        self.ops.push(Op::Tanh(a));
        i
    }

    /// A node raising `base` to a constant exponent.  The exponent is wrapped
    /// in a fresh `Leaf` node so that the producer representation stays
    /// uniform; the embedder assigns that leaf the exponent's numeric value.
    /// By design no gradient is ever routed to the exponent leaf: it is a
    /// constant, not a trainable input.
    ///
    /// Returns `(exponent_leaf, power_node)`.
    pub fn power(&mut self, base: usize) -> (r: (usize, usize))
        requires
            old(self).wf(),
            base < old(self)@.len(),
        ensures
            final(self).wf(),
            r.0 == old(self)@.len(),
            r.1 == old(self)@.len() + 1,
            final(self)@ == old(self)@.push(Op::Leaf).push(
                Op::Power(base, old(self)@.len() as usize),
            ),
    {
        let exponent = self.leaf();
        let i = self.ops.len();
        proof {
            lemma_push_preserves_wf(self.ops@, Op::Power(base, exponent));
        }
        self.ops.push(Op::Power(base, exponent));
        (exponent, i)
    }

    /// The composite `x - y`, built from the primitives as
    /// `sum(x, product(y, c))` where `c` is a fresh leaf that the embedder
    /// assigns the value negative one.  No dedicated backward rule exists for
    /// it: its derivative follows from the primitive rules via the chain
    /// rule.
    ///
    /// Returns the index of the `Sum` node; the constant leaf sits at
    /// `old(self)@.len()` and the `Product` node just above it.
    pub fn difference(&mut self, x: usize, y: usize) -> (i: usize)
        requires
            old(self).wf(),
            x < old(self)@.len(),
            y < old(self)@.len(),
        ensures
            final(self).wf(),
            i == old(self)@.len() + 2,
            final(self)@ == old(self)@.push(Op::Leaf).push(
                Op::Product(y, old(self)@.len() as usize),
            ).push(Op::Sum(x, (old(self)@.len() + 1) as usize)),
    {
        let c = self.leaf();
        let p = self.product(y, c);
        self.sum(x, p)
    }

    /// The composite `x / y`, built from the primitives as
    /// `product(x, power(y, c))` where `c` is a fresh exponent leaf that the
    /// embedder assigns the value negative one.  As with `difference`, its
    /// derivative follows from the primitive rules.
    ///
    /// Returns the index of the `Product` node; the exponent leaf sits at
    /// `old(self)@.len()` and the `Power` node just above it.
    pub fn quotient(&mut self, x: usize, y: usize) -> (i: usize)
        requires
            old(self).wf(),
            x < old(self)@.len(),
            y < old(self)@.len(),
        ensures
            final(self).wf(),
            i == old(self)@.len() + 2,
            final(self)@ == old(self)@.push(Op::Leaf).push(
                Op::Power(y, old(self)@.len() as usize),
            ).push(Op::Product(x, (old(self)@.len() + 1) as usize)),
    {
        let (_, p) = self.power(y);
        self.product(x, p)
    }
}

} // verus!
