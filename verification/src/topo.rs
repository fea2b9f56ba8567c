//! Reachability along producer edges and the topological traversal of the
//! DAG.
//!
//! The traversal is a post-order depth-first walk with a visited set: every
//! node reachable from the root is visited exactly once, no matter how many
//! parents reference it, and it is emitted only after all of its operands.

use vstd::prelude::*;

use crate::graph::{graph_wf, op_wf, operands, Graph, Op};

verus! {

/// There is a producer edge from node `i` to node `j`: `j` is one of `i`'s
/// operands.
pub open spec fn edge(ops: Seq<Op>, i: usize, j: usize) -> bool {
    i < ops.len() && operands(ops[i as int]).contains(j)
}

/// Node `to` is reachable from node `from` by following producer edges.  In a
/// well-formed graph every edge points strictly downward, so paths descend
/// and the recursion is grounded on the source index.
pub open spec fn reaches(ops: Seq<Op>, from: usize, to: usize) -> bool
    decreases from,
{
    ||| from == to
    ||| exists|j: usize| j < from && #[trigger] edge(ops, from, j) && reaches(ops, j, to)
}

/// A single downward edge is a (one-step) reach.
pub proof fn lemma_edge_reaches(ops: Seq<Op>, i: usize, j: usize)
    requires
        edge(ops, i, j),
        j < i,
    ensures
        reaches(ops, i, j),
{
    assert(j < i && edge(ops, i, j) && reaches(ops, j, j));
}

/// Reachability is transitive.
pub proof fn lemma_reaches_trans(ops: Seq<Op>, a: usize, b: usize, c: usize)
    requires
        reaches(ops, a, b),
        reaches(ops, b, c),
    ensures
        reaches(ops, a, c),
    decreases a,
{
    if a != b {
        let j = choose|j: usize| j < a && #[trigger] edge(ops, a, j) && reaches(ops, j, b);
        lemma_reaches_trans(ops, j, b, c);
        assert(j < a && edge(ops, a, j) && reaches(ops, j, c));
    }
}

/// Paths only descend: whatever `a` reaches lies at `a`'s own index or below.
pub proof fn lemma_reaches_below(ops: Seq<Op>, a: usize, b: usize)
    requires
        reaches(ops, a, b),
    ensures
        b <= a,
    decreases a,
{
    if a != b {
        let j = choose|j: usize| j < a && #[trigger] edge(ops, a, j) && reaches(ops, j, b);
        lemma_reaches_below(ops, j, b);
    }
}

/// Every node of `order` stands strictly after each of its operands: the
/// operands of the node at position `k` all occur among the first `k`
/// entries.
pub open spec fn placed_after_operands(ops: Seq<Op>, order: Seq<usize>) -> bool {
    forall|k: int, m: int|
        #![trigger operands(ops[order[k] as int])[m]]
        0 <= k < order.len() && 0 <= m < operands(ops[order[k] as int]).len()
            ==> order.subrange(0, k).contains(operands(ops[order[k] as int])[m])
}

/// What it means for `order` to be a topological order of the part of the
/// graph reachable from `root`: it lists nodes of the graph, all of them
/// reachable from `root`, each exactly once, none missing, and every node
/// strictly after each of its operands.
pub open spec fn is_topological_order(ops: Seq<Op>, root: usize, order: Seq<usize>) -> bool {
    &&& forall|k: int| 0 <= k < order.len() ==> (#[trigger] order[k] as int) < ops.len()
    &&& forall|k: int| 0 <= k < order.len() ==> reaches(ops, root, #[trigger] order[k])
    &&& order.no_duplicates()
    &&& forall|j: usize| #[trigger] reaches(ops, root, j) ==> order.contains(j)
    &&& placed_after_operands(ops, order)
}

/// Single-visit law: a topological order of the subgraph rooted at `root`
/// lists every node reachable from `root` exactly once — however many
/// parents reference it — and lists nothing else.
pub proof fn lemma_single_visit(ops: Seq<Op>, root: usize, order: Seq<usize>, j: usize)
    requires
        is_topological_order(ops, root, order),
    ensures
        reaches(ops, root, j) ==> order.to_multiset().count(j) == 1,
        !reaches(ops, root, j) ==> order.to_multiset().count(j) == 0,
{
    order.to_multiset_ensures();
    if reaches(ops, root, j) {
        assert(order.contains(j));
        order.lemma_multiset_has_no_duplicates();
        assert(order.to_multiset().count(j) > 0);
    } else {
        if order.contains(j) {
            let k = choose|k: int| 0 <= k < order.len() && order[k] == j;
            assert(reaches(ops, root, order[k]));
            assert(false);
        }
    }
}

/// The visited set never holds a node whose operands are outside of it.
spec fn closed_under_operands(ops: Seq<Op>, visited: Seq<bool>) -> bool {
    forall|j: usize, m: int|
        #![trigger visited[j as int], operands(ops[j as int])[m]]
        j < ops.len() && visited[j as int] && 0 <= m < operands(ops[j as int]).len()
            ==> visited[operands(ops[j as int])[m] as int]
}

/// The working state of the depth-first walk: `order` holds exactly the
/// visited nodes, without duplicates, all reachable from `root`, each after
/// its operands; and the visited set is closed under operand edges.
spec fn visit_inv(ops: Seq<Op>, root: usize, visited: Seq<bool>, order: Seq<usize>) -> bool {
    &&& visited.len() == ops.len()
    &&& order.no_duplicates()
    &&& forall|k: int| 0 <= k < order.len() ==> (#[trigger] order[k] as int) < ops.len()
    &&& forall|k: int| 0 <= k < order.len() ==> reaches(ops, root, #[trigger] order[k])
    &&& forall|j: usize| j < ops.len() ==> ((#[trigger] visited[j as int]) <==> order.contains(j))
    &&& placed_after_operands(ops, order)
    &&& closed_under_operands(ops, visited)
}

/// From a visited node, everything reachable is visited, because the visited
/// set is closed under operand edges.
proof fn lemma_visited_closed(ops: Seq<Op>, visited: Seq<bool>, i: usize, j: usize)
    requires
        visited.len() == ops.len(),
        closed_under_operands(ops, visited),
        i < ops.len(),
        visited[i as int],
        reaches(ops, i, j),
        j < ops.len(),
    ensures
        visited[j as int],
    decreases i,
{
    if i != j {
        let jj = choose|jj: usize| jj < i && #[trigger] edge(ops, i, jj) && reaches(ops, jj, j);
        let m = choose|m: int|
            0 <= m < operands(ops[i as int]).len() && operands(ops[i as int])[m] == jj;
        assert(visited[jj as int]);
        lemma_visited_closed(ops, visited, jj, j);
    }
}

/// Marking a node visited and appending it to the order preserves the walk's
/// state, provided the node was not visited yet, is reachable from the root,
/// and all of its operands have already been visited.
proof fn lemma_visit_push(ops: Seq<Op>, root: usize, visited: Seq<bool>, order: Seq<usize>, i: usize)
    requires
        graph_wf(ops),
        i < ops.len(),
        reaches(ops, root, i),
        visit_inv(ops, root, visited, order),
        !visited[i as int],
        forall|m: int|
            0 <= m < operands(ops[i as int]).len()
                ==> visited[#[trigger] operands(ops[i as int])[m] as int],
    ensures
        visit_inv(ops, root, visited.update(i as int, true), order.push(i)),
{
    let vis2 = visited.update(i as int, true);
    let ord2 = order.push(i);
    assert(!order.contains(i));
    assert(ord2.no_duplicates()) by {
        assert forall|p: int, q: int|
            0 <= p < ord2.len() && 0 <= q < ord2.len() && p != q implies ord2[p] != ord2[q] by {
            if p < order.len() && q < order.len() {
                assert(order[p] != order[q]);
            } else if q == order.len() && p < order.len() {
                assert(order.contains(order[p]));
            } else if p == order.len() && q < order.len() {
                assert(order.contains(order[q]));
            }
        }
    }
    assert forall|j: usize| j < ops.len() implies ((vis2[j as int]) <==> ord2.contains(j)) by {
        if j == i {
            assert(ord2[order.len() as int] == i);
            assert(ord2.contains(i));
        } else {
            assert(vis2[j as int] == visited[j as int]);
            if ord2.contains(j) {
                let idx = choose|idx: int| 0 <= idx < ord2.len() && ord2[idx] == j;
                assert(idx < order.len());
                assert(order[idx] == j);
                assert(order.contains(j));
            }
            if order.contains(j) {
                let idx = choose|idx: int| 0 <= idx < order.len() && order[idx] == j;
                assert(ord2[idx] == j);
            }
        }
    }
    assert(placed_after_operands(ops, ord2)) by {
        assert forall|k: int, m: int|
            0 <= k < ord2.len() && 0 <= m < operands(ops[ord2[k] as int]).len()
            implies ord2.subrange(0, k).contains(
            #[trigger] operands(ops[ord2[k] as int])[m],
        ) by {
            if k < order.len() {
                assert(ord2[k] == order[k]);
                assert(operands(ops[order[k] as int])[m] == operands(ops[ord2[k] as int])[m]);
                assert(order.subrange(0, k).contains(operands(ops[order[k] as int])[m]));
                assert(ord2.subrange(0, k) =~= order.subrange(0, k));
            } else {
                assert(ord2[k] == i);
                let om = operands(ops[i as int])[m];
                assert(visited[om as int]);
                assert((om as int) < ops.len()) by {
                    assert(op_wf(ops, i as int));
                }
                assert(order.contains(om));
                assert(ord2.subrange(0, k) =~= order);
            }
        }
    }
    assert(closed_under_operands(ops, vis2)) by {
        assert forall|j: usize, m: int|
            j < ops.len() && vis2[j as int] && 0 <= m < operands(ops[j as int]).len()
            implies vis2[#[trigger] operands(ops[j as int])[m] as int] by {
            if j == i {
                assert(visited[operands(ops[i as int])[m] as int]);
            } else {
                assert(visited[j as int]);
                assert(visited[operands(ops[j as int])[m] as int]);
            }
        }
    }
}

impl Graph {
    /// One step of the depth-first walk: visit node `i`, which is reachable
    /// from `root`, recursing into its operands before emitting it.  A node
    /// already visited is left alone, which is exactly what de-duplicates
    /// diamond-shared subgraphs.
    fn visit(&self, i: usize, root: Ghost<usize>, visited: &mut Vec<bool>, order: &mut Vec<usize>)
        requires
            self.wf(),
            i < self@.len(),
            reaches(self@, root@, i),
            visit_inv(self@, root@, old(visited)@, old(order)@),
        ensures
            visit_inv(self@, root@, final(visited)@, final(order)@),
            final(order)@.len() >= old(order)@.len(),
            forall|l: int| 0 <= l < old(order)@.len() ==> final(order)@[l] == old(order)@[l],
            forall|j: int| 0 <= j < old(visited)@.len() && old(visited)@[j] ==> final(visited)@[j],
            final(visited)@[i as int],
            forall|j: usize|
                j < self@.len() && reaches(self@, i, j) ==> final(visited)@[j as int],
            forall|j: int|
                i < j < old(visited)@.len() ==> final(visited)@[j] == old(visited)@[j],
            !old(visited)@[i as int] ==> final(order)@.len() > 0 && final(order)@.last() == i,
        decreases i,
    {
        if !visited[i] {
            proof {
                assert(op_wf(self@, i as int));
            }
            let o = self.op_at(i);
            match o {
                Op::Leaf => {},
                Op::Sum(a, b) => {
                    proof {
                        self.lemma_operand_step(i, root, 0, a);
                        self.lemma_operand_step(i, root, 1, b);
                    }
                    self.visit(a, root, visited, order);
                    self.visit(b, root, visited, order);
                    assert(visited@[a as int] && visited@[b as int]);
                },
                Op::Product(a, b) => {
                    proof {
                        self.lemma_operand_step(i, root, 0, a);
                        self.lemma_operand_step(i, root, 1, b);
                    }
                    self.visit(a, root, visited, order);
                    self.visit(b, root, visited, order);
                    assert(visited@[a as int] && visited@[b as int]);
                },
                Op::Power(base, exponent) => {
                    proof {
                        self.lemma_operand_step(i, root, 0, base);
                        self.lemma_operand_step(i, root, 1, exponent);
                    }
                    self.visit(base, root, visited, order);
                    self.visit(exponent, root, visited, order);
                    assert(visited@[base as int] && visited@[exponent as int]);
                },
                Op::Tanh(a) => {
                    proof {
                        self.lemma_operand_step(i, root, 0, a);
                    }
                    self.visit(a, root, visited, order);
                    assert(visited@[a as int]);
                },
            }
            proof {
                assert forall|m: int|
                    0 <= m < operands(self@[i as int]).len()
                    implies visited@[#[trigger] operands(self@[i as int])[m] as int] by {
                    match self@[i as int] {
                        Op::Leaf => {},
                        Op::Sum(a, b) => {
                            assert(operands(self@[i as int]) == seq![a, b]);
                        },
                        Op::Product(a, b) => {
                            assert(operands(self@[i as int]) == seq![a, b]);
                        },
                        Op::Power(base, exponent) => {
                            assert(operands(self@[i as int]) == seq![base, exponent]);
                        },
                        Op::Tanh(a) => {
                            assert(operands(self@[i as int]) == seq![a]);
                        },
                    }
                }
            }
            let ghost vis0 = visited@;
            let ghost ord0 = order@;
            visited[i] = true;
            order.push(i);
            proof {
                lemma_visit_push(self@, root@, vis0, ord0, i);
                assert(visited@ == vis0.update(i as int, true));
                assert(order@ == ord0.push(i));
                assert forall|j: usize|
                    j < self@.len() && reaches(self@, i, j) implies visited@[j as int] by {
                    lemma_visited_closed(self@, visited@, i, j);
                }
            }
        } else {
            proof {
                assert forall|j: usize|
                    j < self@.len() && reaches(self@, i, j) implies visited@[j as int] by {
                    lemma_visited_closed(self@, visited@, i, j);
                }
            }
        }
    }

    /// The `m`-th operand `a` of node `i` lies strictly below `i`, is linked
    /// to it by an edge, and is reachable from the root through `i`.
    proof fn lemma_operand_step(&self, i: usize, root: Ghost<usize>, m: int, a: usize)
        requires
            self.wf(),
            i < self@.len(),
            reaches(self@, root@, i),
            0 <= m < operands(self@[i as int]).len(),
            operands(self@[i as int])[m] == a,
        ensures
            (a as int) < i,
            edge(self@, i, a),
            reaches(self@, root@, a),
    {
        assert(op_wf(self@, i as int));
        assert(operands(self@[i as int]).contains(a));
        lemma_edge_reaches(self@, i, a);
        lemma_reaches_trans(self@, root@, i, a);
    }

    /// The topological order of the subgraph reachable from `root`: every
    /// reachable node appears exactly once, every node appears strictly after
    /// all of its operands, and `root` itself comes last.
    pub fn topological_order(&self, root: usize) -> (order: Vec<usize>)
        requires
            self.wf(),
            root < self@.len(),
        ensures
            is_topological_order(self@, root, order@),
            order@.len() > 0,
            order@.last() == root,
    {
        let n = self.len();
        let mut visited: Vec<bool> = Vec::new();
        while visited.len() < n
            invariant
                visited@.len() <= n,
                forall|k: int| 0 <= k < visited@.len() ==> !visited@[k],
            decreases n - visited@.len(),
        {
            visited.push(false);
        }
        let mut order: Vec<usize> = Vec::new();
        proof {
            assert(visit_inv(self@, root, visited@, order@));
        }
        self.visit(root, Ghost(root), &mut visited, &mut order);
        proof {
            assert forall|j: usize| #[trigger] reaches(self@, root, j) implies order@.contains(
                j,
            ) by {
                lemma_reaches_below(self@, root, j);
                assert(visited@[j as int]);
            }
        }
        order
    }
}

} // verus!
