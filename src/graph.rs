//! The computation graph: an arena of nodes, each tagged with the operation
//! that produced it and holding the indices of its operands.
//!
//! An operand always has a smaller index than the node that consumes it, so
//! the graph is acyclic by construction and ascending index order is a
//! topological order.

use vstd::prelude::*;

verus! {

/// How a node was produced.
#[derive(Clone, Copy, Debug, PartialEq, Eq, Structural)]
pub enum Operation {
    Add,
    Mul,
    Div,
    Pow,
    Log,
    Leaf,
}

/// Number of operands a node produced by `op` holds.
pub open spec fn arity(op: Operation) -> nat {
    match op {
        Operation::Leaf => 0,
        Operation::Log => 1,
        _ => 2,
    }
}

struct Node {
    op: Operation,
    operands: Vec<usize>,
}

/// An arena of nodes addressed by index.
pub struct Graph {
    nodes: Vec<Node>,
}

impl View for Graph {
    /// Each node as its operation and the indices of its operands, in order.
    type V = Seq<(Operation, Seq<usize>)>;

    closed spec fn view(&self) -> Self::V {
        self.nodes@.map_values(|n: Node| (n.op, n.operands@))
    }
}

impl Graph {
    /// Every node has as many operands as its operation takes, each of them
    /// created before the node itself.
    pub open spec fn wf(&self) -> bool {
        forall|i: int|
            0 <= i < self@.len() ==> {
                &&& (#[trigger] self@[i]).1.len() == arity(self@[i].0)
                &&& forall|k: int| 0 <= k < self@[i].1.len() ==> self@[i].1[k] < i
            }
    }

    /// `to` is an operand of `from`.
    pub open spec fn edge(&self, from: int, to: int) -> bool {
        &&& 0 <= to < from < self@.len()
        &&& self@[from].1.contains(to as usize)
    }

    /// `p` is a chain of nodes, each an operand of the one before it.
    pub open spec fn is_path(&self, p: Seq<int>) -> bool {
        &&& p.len() >= 1
        &&& 0 <= p[0] < self@.len()
        &&& forall|k: int| 0 <= k < p.len() - 1 ==> #[trigger] self.edge(p[k], p[k + 1])
    }

    /// Node `to` is reachable from node `from` by following operand links
    /// (every node reaches itself).
    pub open spec fn reaches(&self, from: int, to: int) -> bool {
        exists|p: Seq<int>| #[trigger] self.is_path(p) && p[0] == from && p.last() == to
    }

    pub fn new() -> (g: Graph)
        ensures
            g.wf(),
            g@.len() == 0,
    {
        let g = Graph { nodes: Vec::new() };
        assert(g@ =~= Seq::empty());
        g
    }

    pub fn len(&self) -> (r: usize)
        ensures
            r == self@.len(),
    {
        self.nodes.len()
    }

    fn push(&mut self, op: Operation, operands: Vec<usize>) -> (r: usize)
        requires
            old(self).wf(),
            operands@.len() == arity(op),
            forall|k: int| 0 <= k < operands@.len() ==> operands@[k] < old(self)@.len(),
        ensures
            final(self).wf(),
            r == old(self)@.len(),
            final(self)@ == old(self)@.push((op, operands@)),
    {
        let r = self.nodes.len();
        self.nodes.push(Node { op, operands });
        assert(self@ =~= old(self)@.push((op, operands@)));
        r
    }

    /// Appends a node without operands and returns its index.
    pub fn leaf(&mut self) -> (r: usize)
        requires
            old(self).wf(),
        ensures
            final(self).wf(),
            r == old(self)@.len(),
            final(self)@ == old(self)@.push((Operation::Leaf, seq![])),
    {
        let none: Vec<usize> = Vec::new();
        assert(none@ =~= seq![]);
        self.push(Operation::Leaf, none)
    }

    /// Appends a node `op(a, b)` and returns its index.
    pub fn binary(&mut self, op: Operation, a: usize, b: usize) -> (r: usize)
        requires
            old(self).wf(),
            arity(op) == 2,
            a < old(self)@.len(),
            b < old(self)@.len(),
        ensures
            final(self).wf(),
            r == old(self)@.len(),
            final(self)@ == old(self)@.push((op, seq![a, b])),
    {
        let v: Vec<usize> = vec![a, b];
        assert(v@ =~= seq![a, b]);
        self.push(op, v)
    }

    /// Appends a node `ln(a)` and returns its index.
    pub fn log(&mut self, a: usize) -> (r: usize)
        requires
            old(self).wf(),
            a < old(self)@.len(),
        ensures
            final(self).wf(),
            r == old(self)@.len(),
            final(self)@ == old(self)@.push((Operation::Log, seq![a])),
    {
        let v: Vec<usize> = vec![a];
        assert(v@ =~= seq![a]);
        self.push(Operation::Log, v)
    }

    /// The operation of node `i`.
    pub fn op(&self, i: usize) -> (r: Operation)
        requires
            i < self@.len(),
        ensures
            r == self@[i as int].0,
    {
        self.nodes[i].op
    }

    /// The operands of node `i`, in order.
    pub fn operands(&self, i: usize) -> (r: Vec<usize>)
        requires
            i < self@.len(),
        ensures
            r@ == self@[i as int].1,
    {
        let src = &self.nodes[i].operands;
        let mut r: Vec<usize> = Vec::new();
        let mut k: usize = 0;
        while k < src.len()
            invariant
                k <= src@.len(),
                r@ == src@.subrange(0, k as int),
            decreases src@.len() - k,
        {
            r.push(src[k]);
            k += 1;
            assert(r@ =~= src@.subrange(0, k as int));
        }
        assert(r@ =~= src@);
        r
    }

    /// Drops every node from index `n` on, keeping the first `n`.
    pub fn truncate(&mut self, n: usize)
        requires
            old(self).wf(),
            n <= old(self)@.len(),
        ensures
            final(self).wf(),
            final(self)@ == old(self)@.subrange(0, n as int),
    {
        self.nodes.truncate(n);
        assert(self@ =~= old(self)@.subrange(0, n as int));
    }

    proof fn lemma_extend_path(&self, p: Seq<int>, o: int)
        requires
            self.is_path(p),
            self.edge(p.last(), o),
        ensures
            self.is_path(p.push(o)),
            p.push(o)[0] == p[0],
            p.push(o).last() == o,
    {
        let q = p.push(o);
        assert forall|k: int| 0 <= k < q.len() - 1 implies #[trigger] self.edge(q[k], q[k + 1]) by {
            if k < p.len() - 1 {
                assert(self.edge(p[k], p[k + 1]));
            }
        }
    }

    /// Along a path from `root`, a marking closed under operand links that
    /// holds `root` holds every node.
    proof fn lemma_closed_marking(&self, root: int, mark: Seq<bool>, p: Seq<int>)
        requires
            self.wf(),
            0 <= root < self@.len(),
            root <= usize::MAX,
            mark.len() == root + 1,
            mark[root],
            forall|j: int, k: int|
                0 <= j <= root && mark[j] && 0 <= k < self@[j].1.len() ==> #[trigger] mark[
                    self@[j].1[k] as int],
            self.is_path(p),
            p[0] == root,
        ensures
            0 <= p.last() <= root,
            mark[p.last()],
        decreases p.len(),
    {
        if p.len() > 1 {
            let q = p.drop_last();
            assert forall|k: int| 0 <= k < q.len() - 1 implies #[trigger] self.edge(q[k], q[k + 1]) by {
                assert(self.edge(p[k], p[k + 1]));
            }
            self.lemma_closed_marking(root, mark, q);
            let j = q.last();
            let k0 = p.len() - 2;
            assert(self.edge(p[k0], p[k0 + 1]));
            assert(j == p[k0]);
            assert(p.last() == p[k0 + 1]);
            assert(0 <= p.last() < j);
            let ops = self@[j].1;
            let k = choose|k: int| 0 <= k < ops.len() && ops[k] == (p.last() as usize);
            assert(mark[ops[k] as int]);
        }
    }

    /// The nodes reachable from `root`, each once, in ascending index order:
    /// every node comes after all of its operands, and `root` comes last.
    /// Propagating gradients walks this order backwards.
    pub fn topo_order(&self, root: usize) -> (r: Vec<usize>)
        requires
            self.wf(),
            root < self@.len(),
        ensures
            forall|i: int, j: int| 0 <= i < j < r@.len() ==> r@[i] < r@[j],
            forall|i: int| 0 <= i < r@.len() ==> r@[i] <= root,
            forall|n: usize| r@.contains(n) <==> self.reaches(root as int, n as int),
            r@.len() > 0,
            r@.last() == root,
    {
        let total = self.nodes.len();
        assert(total == self@.len());
        let mut mark: Vec<bool> = Vec::new();
        let mut m: usize = 0;
        while m <= root
            invariant
                root < total,
                m <= root + 1,
                mark@.len() == m,
                forall|k: int| 0 <= k < m ==> !mark@[k],
            decreases root + 1 - m,
        {
            mark.push(false);
            m += 1;
        }
        mark.set(root, true);
        proof {
            let p = seq![root as int];
            assert(self.is_path(p));
        }
        let mut i: usize = root + 1;
        while i > 0
            invariant
                self.wf(),
                root < self@.len(),
                i <= root + 1,
                mark@.len() == root + 1,
                mark@[root as int],
                forall|k: int| 0 <= k <= root && mark@[k] ==> self.reaches(root as int, k),
                forall|j: int, k: int|
                    i <= j <= root && mark@[j] && 0 <= k < self@[j].1.len() ==> #[trigger] mark@[
                        self@[j].1[k] as int],
            decreases i,
        {
            i -= 1;
            if mark[i] {
                let node = &self.nodes[i];
                assert(node.operands@ == self@[i as int].1);
                assert(self@[i as int].1.len() == arity(self@[i as int].0));
                let mut k: usize = 0;
                while k < node.operands.len()
                    invariant
                        self.wf(),
                        root < self@.len(),
                        i <= root,
                        node.operands@ == self@[i as int].1,
                        k <= node.operands@.len(),
                        mark@.len() == root + 1,
                        mark@[root as int],
                        mark@[i as int],
                        forall|kk: int| 0 <= kk <= root && mark@[kk] ==> self.reaches(root as int, kk),
                        forall|j: int, kk: int|
                            i < j <= root && mark@[j] && 0 <= kk < self@[j].1.len() ==> #[trigger] mark@[
                                self@[j].1[kk] as int],
                        forall|kk: int| 0 <= kk < k ==> mark@[node.operands@[kk] as int],
                    decreases node.operands@.len() - k,
                {
                    let o = node.operands[k];
                    assert(o < i);
                    proof {
                        let p = choose|p: Seq<int>| #[trigger] self.is_path(p) && p[0] == root as int && p.last() == i as int;
                        assert(self@[i as int].1[k as int] == o);
                        assert(self.edge(p.last(), o as int));
                        self.lemma_extend_path(p, o as int);
                    }
                    mark.set(o, true);
                    k += 1;
                }
            }
        }
        let mut r: Vec<usize> = Vec::new();
        let mut j: usize = 0;
        while j <= root
            invariant
                root < total,
                j <= root + 1,
                mark@.len() == root + 1,
                forall|a: int, b: int| 0 <= a < b < r@.len() ==> r@[a] < r@[b],
                forall|a: int| 0 <= a < r@.len() ==> r@[a] < j,
                forall|n: usize| r@.contains(n) <==> (n < j && mark@[n as int]),
            decreases root + 1 - j,
        {
            let ghost r0 = r@;
            if mark[j] {
                r.push(j);
                proof {
                    assert forall|n: usize| r@.contains(n) <==> (n < j + 1 && mark@[n as int]) by {
                        if n == j {
                            assert(r@[r@.len() - 1] == j);
                        } else if r@.contains(n) {
                            let a = choose|a: int| 0 <= a < r@.len() && r@[a] == n;
                            assert(r0[a] == n);
                        } else if n < j && mark@[n as int] {
                            let a = choose|a: int| 0 <= a < r0.len() && r0[a] == n;
                            assert(r@[a] == n);
                        }
                    }
                }
            }
            j += 1;
        }
        proof {
            assert(r@.contains(root));
            assert forall|n: usize| r@.contains(n) <==> self.reaches(root as int, n as int) by {
                if self.reaches(root as int, n as int) {
                    let p = choose|p: Seq<int>| #[trigger] self.is_path(p) && p[0] == root as int && p.last() == n as int;
                    self.lemma_closed_marking(root as int, mark@, p);
                }
            }
            let a = choose|a: int| 0 <= a < r@.len() && r@[a] == root;
            if a < r@.len() - 1 {
                assert(r@[a] < r@[r@.len() - 1]);
            }
        }
        r
    }

    /// The `inputs.len() * 2 + 2` nodes from index `base` on are those of
    /// `weighted_sum`: a zero leaf, then for each input `k` the product of
    /// weight `start + k` with `inputs[k]` and the running sum, and last the
    /// sum plus `bias`.
    pub open spec fn is_weighted_sum(
        &self,
        base: int,
        start: int,
        bias: int,
        inputs: Seq<usize>,
    ) -> bool {
        let n = inputs.len() as int;
        &&& 0 <= base
        &&& base + 2 * n + 2 <= self@.len()
        &&& self@[base] == (Operation::Leaf, Seq::<usize>::empty())
        &&& self.sum_steps(base, start, inputs, n)
        &&& self@[base + 2 * n + 1] == (
            Operation::Add,
            seq![(base + 2 * n) as usize, bias as usize],
        )
    }

    /// For each input `k` below `count`, node `base + 2k + 1` multiplies
    /// weight `start + k` by `inputs[k]` and node `base + 2k + 2` adds that
    /// product to the running sum at `base + 2k`.
    pub open spec fn sum_steps(&self, base: int, start: int, inputs: Seq<usize>, count: int) -> bool {
        forall|k: int|
            0 <= k < count ==> {
                &&& #[trigger] self@[base + 2 * k + 1] == (
                    Operation::Mul,
                    seq![(start + k) as usize, inputs[k]],
                )
                &&& self@[base + 2 * k + 2] == (
                    Operation::Add,
                    seq![(base + 2 * k) as usize, (base + 2 * k + 1) as usize],
                )
            }
    }

    /// Appends the nodes of `bias + sum of weight[start + k] * inputs[k]`,
    /// accumulated from a zero leaf, and returns the index of the result.
    #[verifier::spinoff_prover]
    pub fn weighted_sum(&mut self, start: usize, bias: usize, inputs: &Vec<usize>) -> (r: usize)
        requires
            old(self).wf(),
            start + inputs@.len() <= old(self)@.len(),
            bias < old(self)@.len(),
            forall|k: int| 0 <= k < inputs@.len() ==> inputs@[k] < old(self)@.len(),
            old(self)@.len() + 2 * inputs@.len() + 2 <= usize::MAX,
        ensures
            final(self).wf(),
            final(self)@.len() == old(self)@.len() + 2 * inputs@.len() + 2,
            final(self)@.subrange(0, old(self)@.len() as int) == old(self)@,
            final(self).is_weighted_sum(old(self)@.len() as int, start as int, bias as int, inputs@),
            r == old(self)@.len() + 2 * inputs@.len() + 1,
    {
        let ghost base = old(self)@.len() as int;
        let mut sum = self.leaf();
        let mut k: usize = 0;
        while k < inputs.len()
            invariant
                self.wf(),
                base == old(self)@.len(),
                start + inputs@.len() <= base,
                bias < base,
                forall|kk: int| 0 <= kk < inputs@.len() ==> inputs@[kk] < base,
                base + 2 * inputs@.len() + 2 <= usize::MAX,
                k <= inputs@.len(),
                sum == base + 2 * k,
                self@.len() == base + 2 * k + 1,
                self@.subrange(0, base) == old(self)@,
                self@[base] == (Operation::Leaf, Seq::<usize>::empty()),
                self.sum_steps(base, start as int, inputs@, k as int),
            decreases inputs@.len() - k,
        {
            let ghost before = self@;
            let m = self.binary(Operation::Mul, start + k, inputs[k]);
            let ghost mid = self@;
            sum = self.binary(Operation::Add, sum, m);
            proof {
                assert(mid == before.push((Operation::Mul, seq![(start + k) as usize, inputs@[k as int]])));
                assert(self@ == mid.push((Operation::Add, seq![(base + 2 * k) as usize, (base + 2 * k + 1) as usize])));
                assert(self@[base + 2 * k + 1] == (
                    Operation::Mul,
                    seq![(start + k) as usize, inputs@[k as int]],
                ));
                assert(self@[base + 2 * k + 2] == (
                    Operation::Add,
                    seq![(base + 2 * k) as usize, (base + 2 * k + 1) as usize],
                ));
                assert forall|kk: int| 0 <= kk < k + 1 implies #[trigger] self@[base + 2 * kk + 1] == (
                    Operation::Mul,
                    seq![(start + kk) as usize, inputs@[kk]],
                ) && self@[base + 2 * kk + 2] == (
                    Operation::Add,
                    seq![(base + 2 * kk) as usize, (base + 2 * kk + 1) as usize],
                ) by {
                    if kk < k {
                        assert(before[base + 2 * kk + 1] == (
                            Operation::Mul,
                            seq![(start + kk) as usize, inputs@[kk]],
                        ));
                        assert(before[base + 2 * kk + 1] == self@[base + 2 * kk + 1]);
                        assert(before[base + 2 * kk + 2] == self@[base + 2 * kk + 2]);
                    }
                }
                assert(self.sum_steps(base, start as int, inputs@, k + 1));
                assert(self@.subrange(0, base) =~= old(self)@);
            }
            k += 1;
        }
        let ghost pre = self@;
        let r = self.binary(Operation::Add, sum, bias);
        proof {
            assert(self@.subrange(0, base) =~= old(self)@);
            let n = inputs@.len() as int;
            assert forall|kk: int| 0 <= kk < n implies {
                &&& #[trigger] self@[base + 2 * kk + 1] == (
                    Operation::Mul,
                    seq![(start + kk) as usize, inputs@[kk]],
                )
                &&& self@[base + 2 * kk + 2] == (
                    Operation::Add,
                    seq![(base + 2 * kk) as usize, (base + 2 * kk + 1) as usize],
                )
            } by {
                assert(pre[base + 2 * kk + 1] == (
                    Operation::Mul,
                    seq![(start + kk) as usize, inputs@[kk]],
                ));
                assert(pre[base + 2 * kk + 1] == self@[base + 2 * kk + 1]);
                assert(pre[base + 2 * kk + 2] == self@[base + 2 * kk + 2]);
            }
        }
        r
    }

    /// A weighted-sum block stays one when nodes are appended after it.
    pub proof fn lemma_weighted_sum_kept(
        g1: Graph,
        g2: Graph,
        base: int,
        start: int,
        bias: int,
        inputs: Seq<usize>,
    )
        requires
            g1.is_weighted_sum(base, start, bias, inputs),
            g1@.len() <= g2@.len(),
            g2@.subrange(0, g1@.len() as int) == g1@,
        ensures
            g2.is_weighted_sum(base, start, bias, inputs),
    {
        assert forall|i: int| 0 <= i < g1@.len() implies g2@[i] == g1@[i] by {
            assert(g2@.subrange(0, g1@.len() as int)[i] == g2@[i]);
        }
        let n = inputs.len() as int;
        assert forall|k: int| 0 <= k < n implies {
            &&& #[trigger] g2@[base + 2 * k + 1] == (
                Operation::Mul,
                seq![(start + k) as usize, inputs[k]],
            )
            &&& g2@[base + 2 * k + 2] == (
                Operation::Add,
                seq![(base + 2 * k) as usize, (base + 2 * k + 1) as usize],
            )
        } by {
            assert(g1@[base + 2 * k + 1] == g2@[base + 2 * k + 1]);
            assert(g1@[base + 2 * k + 2] == g2@[base + 2 * k + 2]);
        }
        assert(g2.sum_steps(base, start, inputs, n));
        assert(g1@[base] == g2@[base]);
        assert(g1@[base + 2 * n + 1] == g2@[base + 2 * n + 1]);
    }

    /// A graph of `n` leaves, the parameters of a network.
    pub fn with_leaves(n: usize) -> (g: Graph)
        ensures
            g.wf(),
            g@.len() == n,
            forall|i: int| 0 <= i < n ==> #[trigger] g@[i] == (Operation::Leaf, Seq::<usize>::empty()),
    {
        let mut g = Graph::new();
        let mut i: usize = 0;
        while i < n
            invariant
                g.wf(),
                i <= n,
                g@.len() == i,
                forall|k: int| 0 <= k < i ==> #[trigger] g@[k] == (Operation::Leaf, Seq::<usize>::empty()),
            decreases n - i,
        {
            g.leaf();
            i += 1;
        }
        g
    }

    /// The gradient steps of a backward pass from `root`: one `(node, slot)`
    /// pair per operand slot of each node reachable from `root`, nodes taken
    /// from the highest index down and slots of one node in order.
    pub fn backward_plan(&self, root: usize) -> (r: Vec<(usize, usize)>)
        requires
            self.wf(),
            root < self@.len(),
        ensures
            forall|s: int|
                0 <= s < r@.len() ==> {
                    &&& self.reaches(root as int, (#[trigger] r@[s]).0 as int)
                    &&& r@[s].1 < self@[r@[s].0 as int].1.len()
                },
            forall|c: usize, k: usize|
                self.reaches(root as int, c as int) && k < self@[c as int].1.len() ==> r@.contains((c, k)),
            forall|a: int, b: int|
                0 <= a < b < r@.len() ==> r@[a].0 > r@[b].0 || (r@[a].0 == r@[b].0 && r@[a].1 < r@[b].1),
            forall|a: int, b: int|
                0 <= a < r@.len() && 0 <= b < r@.len() && self@[r@[a].0 as int].1[r@[a].1 as int]
                    == r@[b].0 ==> a < b,
    {
        let order = self.topo_order(root);
        let mut r: Vec<(usize, usize)> = Vec::new();
        let mut i: usize = order.len();
        while i > 0
            invariant
                self.wf(),
                root < self@.len(),
                i <= order@.len(),
                i == order@.len() ==> r@.len() == 0,
                forall|a: int, b: int| 0 <= a < b < order@.len() ==> order@[a] < order@[b],
                forall|a: int| 0 <= a < order@.len() ==> order@[a] <= root,
                forall|n: usize| order@.contains(n) <==> self.reaches(root as int, n as int),
                forall|s: int|
                    0 <= s < r@.len() ==> {
                        &&& self.reaches(root as int, (#[trigger] r@[s]).0 as int)
                        &&& r@[s].1 < self@[r@[s].0 as int].1.len()
                        &&& i < order@.len() ==> r@[s].0 >= order@[i as int]
                    },
                forall|m: int, k: usize|
                    i <= m < order@.len() && k < self@[order@[m] as int].1.len() ==> r@.contains(
                        (order@[m], k),
                    ),
                forall|a: int, b: int|
                    0 <= a < b < r@.len() ==> r@[a].0 > r@[b].0 || (r@[a].0 == r@[b].0 && r@[a].1
                        < r@[b].1),
            decreases i,
        {
            i -= 1;
            let c = order[i];
            assert(order@.contains(c));
            if i + 1 < order.len() {
                assert(order@[i as int] < order@[i + 1]);
            }
            let ops_len = self.nodes[c].operands.len();
            assert(ops_len == self@[c as int].1.len());
            let mut k: usize = 0;
            while k < ops_len
                invariant
                    self.wf(),
                    root < self@.len(),
                    i < order@.len(),
                    c == order@[i as int],
                    c <= root,
                    forall|a: int| 0 <= a < order@.len() ==> order@[a] <= root,
                    self.reaches(root as int, c as int),
                    ops_len == self@[c as int].1.len(),
                    k <= ops_len,
                    forall|a: int, b: int| 0 <= a < b < order@.len() ==> order@[a] < order@[b],
                    forall|s: int|
                        0 <= s < r@.len() ==> {
                            &&& self.reaches(root as int, (#[trigger] r@[s]).0 as int)
                            &&& r@[s].1 < self@[r@[s].0 as int].1.len()
                            &&& r@[s].0 > c || (r@[s].0 == c && r@[s].1 < k)
                        },
                    forall|m: int, kk: usize|
                        i < m < order@.len() && kk < self@[order@[m] as int].1.len()
                            ==> r@.contains((order@[m], kk)),
                    forall|t: usize| t < k ==> r@.contains((c, t)),
                    forall|a: int, b: int|
                        0 <= a < b < r@.len() ==> r@[a].0 > r@[b].0 || (r@[a].0 == r@[b].0
                            && r@[a].1 < r@[b].1),
                decreases ops_len - k,
            {
                let ghost before = r@;
                r.push((c, k));
                proof {
                    assert(r@[r@.len() - 1] == (c, k));
                    assert forall|m: int, kk: usize|
                        i < m < order@.len() && kk < self@[order@[m] as int].1.len()
                            implies r@.contains((order@[m], kk)) by {
                        assert(before.contains((order@[m], kk)));
                        let w = choose|w: int| 0 <= w < before.len() && before[w] == (order@[m], kk);
                        assert(r@[w] == (order@[m], kk));
                    }
                    assert forall|t: usize| t < k + 1 implies r@.contains((c, t)) by {
                        if t < k {
                            assert(before.contains((c, t)));
                            let w = choose|w: int| 0 <= w < before.len() && before[w] == (c, t);
                            assert(r@[w] == (c, t));
                        }
                    }
                }
                k += 1;
            }
            proof {
                assert forall|s: int| 0 <= s < r@.len() implies (#[trigger] r@[s]).0 >= order@[i as int] by {}
                assert forall|m: int, kk: usize|
                    i <= m < order@.len() && kk < self@[order@[m] as int].1.len() implies r@.contains(
                        (order@[m], kk),
                    ) by {}
            }
        }
        proof {
            assert forall|c: usize, k: usize|
                self.reaches(root as int, c as int) && k < self@[c as int].1.len() implies r@.contains((c, k)) by {
                assert(order@.contains(c));
                let m = choose|m: int| 0 <= m < order@.len() && order@[m] == c;
            }
            assert forall|a: int, b: int|
                0 <= a < r@.len() && 0 <= b < r@.len() && self@[r@[a].0 as int].1[r@[a].1 as int]
                    == r@[b].0 implies a < b by {
                let c = r@[a].0 as int;
                assert(self@[c].1[r@[a].1 as int] < c);
                if b < a {
                    assert(r@[b].0 >= r@[a].0);
                }
            }
        }
        r
    }
}

} // verus!
