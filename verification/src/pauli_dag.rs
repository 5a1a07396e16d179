//! The commutation dependencies of a sequence of Pauli operators.
//!
//! Each operator is a node, named by its place in the sequence, and has an
//! edge to every earlier operator with which it anticommutes. An operator
//! may be synthesised once all the operators that it points to are gone: the
//! front layer holds the operators that are still there and point to none
//! that is.

use crate::clifford_circuit::{all_fit, CliffordCircuit, CliffordGate};
use crate::greedy_pauli_network::{step_gates, synthesis_step};
use crate::metric::Metric;
use crate::moves::{lemma_view_conj_all, lemma_view_conj_none};
use crate::pauli_set::{PauliSet, PauliSetView};
use crate::sorting::{lemma_stable_order, stable_order};
use crate::symplectic::{lemma_bits_round_trip, lemma_support_bound, PauliString};
use vstd::prelude::*;

verus! {

/// What a dependency graph holds: for each node whether it is still there,
/// and the earlier nodes that it points to, in ascending order.
pub struct DagView {
    pub alive: Seq<bool>,
    pub edges: Seq<Seq<usize>>,
}

/// The number of entries of `alive` that are set.
pub open spec fn count_alive(alive: Seq<bool>) -> nat
    decreases alive.len(),
{
    if alive.len() == 0 {
        0
    } else {
        count_alive(alive.drop_last()) + if alive.last() {
            1nat
        } else {
            0nat
        }
    }
}

/// The earlier strings, below place `k`, with which the string at place `i`
/// anticommutes, in ascending order.
pub open spec fn clashing_before(ops: Seq<PauliString>, i: int, k: nat) -> Seq<usize>
    decreases k,
{
    if k == 0 {
        Seq::empty()
    } else if ops[i].commutes(ops[k - 1]) {
        clashing_before(ops, i, (k - 1) as nat)
    } else {
        clashing_before(ops, i, (k - 1) as nat).push((k - 1) as usize)
    }
}

impl DagView {
    /// Every node has its list of edges, and every edge points to an earlier
    /// node.
    pub open spec fn wf(self) -> bool {
        &&& self.alive.len() == self.edges.len()
        &&& forall|i: int, k: int|
            0 <= i < self.edges.len() && 0 <= k < self.edges[i].len() ==> (
            #[trigger] self.edges[i][k]) < i
    }

    /// None of the nodes that node `i` points to is still there.
    pub open spec fn unblocked(self, i: int) -> bool {
        forall|k: int| 0 <= k < self.edges[i].len() ==>
            !self.alive[#[trigger] self.edges[i][k] as int]
    }

    /// Node `i` is in the front layer: it is still there, and none of the
    /// nodes that it points to is.
    pub open spec fn is_free(self, i: int) -> bool {
        self.alive[i] && self.unblocked(i)
    }

    /// The nodes of the front layer below `k`, in ascending order.
    pub open spec fn free_nodes(self, k: nat) -> Seq<usize>
        decreases k,
    {
        if k == 0 {
            Seq::empty()
        } else if self.is_free(k - 1) {
            self.free_nodes((k - 1) as nat).push((k - 1) as usize)
        } else {
            self.free_nodes((k - 1) as nat)
        }
    }

    /// The front layer: its nodes in ascending order.
    pub open spec fn front(self) -> Seq<usize> {
        self.free_nodes(self.alive.len())
    }

    /// The graph after the nodes below `k` have been visited in ascending
    /// order and each node of the front layer whose operator is trivial has
    /// been removed as it was visited. Since edges point to earlier nodes, one
    /// such visit of all the nodes leaves no node of the front layer with a
    /// trivial operator.
    pub open spec fn pruned(self, trivial: Seq<bool>, k: nat) -> DagView
        decreases k,
    {
        if k == 0 {
            self
        } else {
            let before = self.pruned(trivial, (k - 1) as nat);
            if before.is_free(k - 1) && trivial[k - 1] {
                DagView { alive: before.alive.update(k - 1, false), ..before }
            } else {
                before
            }
        }
    }

    /// The number of nodes that are still there.
    pub open spec fn node_count(self) -> nat {
        count_alive(self.alive)
    }
}

/// The strings of `ops` at the places `nodes`.
pub open spec fn picked(ops: Seq<PauliString>, nodes: Seq<usize>) -> Seq<PauliString> {
    Seq::new(nodes.len(), |k: int| ops[nodes[k] as int])
}

/// Which of the strings are trivial.
pub open spec fn trivial_flags(ops: Seq<PauliString>) -> Seq<bool> {
    Seq::new(ops.len(), |i: int| ops[i].is_trivial())
}

/// The nodes of the front layer are nodes that are there and unblocked, in
/// ascending order, and every such node is among them.
pub proof fn lemma_free_nodes(d: DagView, k: nat)
    requires
        k <= d.alive.len(),
        k <= usize::MAX,
    ensures
        d.free_nodes(k).len() <= k,
        forall|a: int|
            0 <= a < d.free_nodes(k).len() ==> (#[trigger] d.free_nodes(k)[a]) < k && d.is_free(
                d.free_nodes(k)[a] as int,
            ),
        forall|a: int, b: int|
            0 <= a < b < d.free_nodes(k).len() ==> d.free_nodes(k)[a] < d.free_nodes(k)[b],
        forall|i: int|
            0 <= i < k && d.is_free(i) ==> exists|a: int|
                0 <= a < d.free_nodes(k).len() && #[trigger] d.free_nodes(k)[a] == i,
    decreases k,
{
    if k > 0 {
        let rest = d.free_nodes((k - 1) as nat);
        lemma_free_nodes(d, (k - 1) as nat);
        let all = d.free_nodes(k);
        assert forall|i: int| 0 <= i < k && d.is_free(i) implies exists|a: int|
            0 <= a < all.len() && #[trigger] all[a] == i by {
            if i < k - 1 {
                let a = choose|a: int| 0 <= a < rest.len() && #[trigger] rest[a] == i;
                assert(all[a] == i);
            } else {
                assert(all[all.len() - 1] == i);
            }
        }
    }
}

/// A graph in which a node is still there has a node in its front layer:
/// the earliest of the nodes that are there.
pub proof fn lemma_front_not_empty(d: DagView, i: int)
    requires
        d.wf(),
        d.alive.len() <= usize::MAX,
        0 <= i < d.alive.len(),
        d.alive[i],
    ensures
        d.front().len() > 0,
    decreases i,
{
    if d.unblocked(i) {
        lemma_free_nodes(d, d.alive.len());
        assert(d.is_free(i));
    } else {
        let k = choose|k: int|
            0 <= k < d.edges[i].len() && d.alive[#[trigger] d.edges[i][k] as int];
        lemma_front_not_empty(d, d.edges[i][k] as int);
    }
}

/// If no set entry of `b` is clear in `a`, `b` has at most as many set
/// entries as `a`, and fewer if some entry is set in `a` and clear in `b`.
pub proof fn lemma_count_alive_le(a: Seq<bool>, b: Seq<bool>)
    requires
        a.len() == b.len(),
        forall|i: int| 0 <= i < a.len() ==> (#[trigger] b[i] ==> a[i]),
    ensures
        count_alive(b) <= count_alive(a),
        (exists|f: int| 0 <= f < a.len() && a[f] && !#[trigger] b[f]) ==> count_alive(b)
            < count_alive(a),
        count_alive(a) <= a.len(),
    decreases a.len(),
{
    if a.len() > 0 {
        let a0 = a.drop_last();
        let b0 = b.drop_last();
        assert forall|i: int| 0 <= i < a0.len() && #[trigger] b0[i] implies a0[i] by {
            assert(b[i] ==> a[i]);
        }
        lemma_count_alive_le(a0, b0);
        if exists|f: int| 0 <= f < a.len() && a[f] && !#[trigger] b[f] {
            let f = choose|f: int| 0 <= f < a.len() && a[f] && !#[trigger] b[f];
            if f < a.len() - 1 {
                assert(a0[f] && !b0[f]);
            }
        }
    }
}

/// What pruning does: it keeps the edges, removes nodes only, leaves the
/// nodes from `k` on as they were, removes every node below `k` that was in
/// the front layer with a trivial operator, and leaves no such node below
/// `k` in the front layer.
pub proof fn lemma_pruned(d: DagView, trivial: Seq<bool>, k: nat)
    requires
        d.wf(),
        trivial.len() == d.alive.len(),
        k <= d.alive.len(),
    ensures
        d.pruned(trivial, k).wf(),
        d.pruned(trivial, k).edges == d.edges,
        d.pruned(trivial, k).alive.len() == d.alive.len(),
        forall|i: int|
            0 <= i < d.alive.len() ==> (#[trigger] d.pruned(trivial, k).alive[i] ==> d.alive[i]),
        forall|i: int| k <= i < d.alive.len() ==>
            #[trigger] d.pruned(trivial, k).alive[i] == d.alive[i],
        forall|i: int|
            0 <= i < k && d.is_free(i) && trivial[i] ==> !#[trigger] d.pruned(trivial, k).alive[i],
        forall|i: int|
            0 <= i < k && #[trigger] d.pruned(trivial, k).is_free(i) ==> !trivial[i],
        forall|i: int|
            0 <= i < d.alive.len() && d.alive[i] && !#[trigger] d.pruned(trivial, k).alive[i]
                ==> trivial[i] && d.pruned(trivial, k).unblocked(i),
    decreases k,
{
    if k > 0 {
        let before = d.pruned(trivial, (k - 1) as nat);
        let after = d.pruned(trivial, k);
        lemma_pruned(d, trivial, (k - 1) as nat);
        assert forall|i: int|
            0 <= i < d.alive.len() && d.alive[i] && !#[trigger] after.alive[i] implies trivial[i]
            && after.unblocked(i) by {
            assert(before.unblocked(i)) by {
                if before.alive[i] {
                    assert(before.is_free(i));
                }
            }
            assert forall|j: int| 0 <= j < after.edges[i].len() implies
                !after.alive[#[trigger] after.edges[i][j] as int] by {
                assert(!before.alive[before.edges[i][j] as int]);
            }
        }
        assert forall|i: int| 0 <= i < k && d.is_free(i) && trivial[i] implies
            !#[trigger] after.alive[i] by {
            if i == k - 1 {
                assert forall|j: int| 0 <= j < before.edges[i].len() implies
                    !before.alive[#[trigger] before.edges[i][j] as int] by {
                    assert(!d.alive[d.edges[i][j] as int]);
                }
                assert(before.is_free(i));
            }
        }
        assert forall|i: int| 0 <= i < k && #[trigger] after.is_free(i) implies !trivial[i] by {
            assert forall|j: int| 0 <= j < before.edges[i].len() implies
                !before.alive[#[trigger] before.edges[i][j] as int] by {
                assert(before.edges[i][j] < i);
                assert(!after.alive[after.edges[i][j] as int]);
            }
            assert(before.is_free(i));
        }
    }
}

/// The dependency graph of a sequence of operators, as an arena: the nodes
/// are the places of the operators, a removed node stays as a tombstone.
#[derive(Debug)]
pub struct Dag {
    /// Whether each node is still there.
    pub alive: Vec<bool>,
    /// For each node, the earlier nodes whose operators anticommute with its
    /// operator, in ascending order.
    pub edges: Vec<Vec<usize>>,
}

impl View for Dag {
    type V = DagView;

    open spec fn view(&self) -> DagView {
        DagView {
            alive: self.alive@,
            edges: Seq::new(self.edges@.len(), |i: int| self.edges@[i]@),
        }
    }
}

impl Dag {
    /// Tells whether node `i` is in the front layer.
    pub fn is_free(&self, i: usize) -> (r: bool)
        requires
            self@.wf(),
            i < self@.alive.len(),
        ensures
            r == self@.is_free(i as int),
    {
        if !self.alive[i] {
            return false;
        }
        let targets = &self.edges[i];
        assert(targets@ == self@.edges[i as int]);
        let mut k: usize = 0;
        while k < targets.len()
            invariant
                self@.wf(),
                i < self@.alive.len(),
                targets@ == self@.edges[i as int],
                k <= targets@.len(),
                forall|j: int| 0 <= j < k ==>
                    !self@.alive[#[trigger] self@.edges[i as int][j] as int],
            decreases targets@.len() - k,
        {
            assert(self@.edges[i as int][k as int] < i);
            if self.alive[targets[k]] {
                return false;
            }
            k += 1;
        }
        true
    }

    /// Returns the number of nodes that are still there.
    pub fn node_count(&self) -> (r: usize)
        ensures
            r == self@.node_count(),
    {
        let mut count: usize = 0;
        let mut k: usize = 0;
        while k < self.alive.len()
            invariant
                k <= self.alive@.len(),
                count == count_alive(self.alive@.take(k as int)),
                count <= k,
            decreases self.alive@.len() - k,
        {
            proof {
                let next = self.alive@.take(k + 1);
                assert(next.drop_last() =~= self.alive@.take(k as int));
            }
            if self.alive[k] {
                count += 1;
            }
            k += 1;
        }
        assert(self.alive@.take(k as int) =~= self.alive@);
        count
    }
}

/// Constructs the dependency graph of a set of operators: every operator is
/// a node, with an edge to each earlier operator with which it anticommutes.
pub fn build_dag_from_pauli_set(pauli_set: &PauliSet) -> (dag: Dag)
    requires
        pauli_set.wf(),
    ensures
        dag@.wf(),
        dag@.alive == Seq::new(pauli_set@.ops.len(), |i: int| true),
        dag@.edges == Seq::new(
            pauli_set@.ops.len(),
            |i: int| clashing_before(pauli_set@.ops, i, i as nat),
        ),
{
    let m = pauli_set.len();
    let ghost ops = pauli_set@.ops;
    let mut alive: Vec<bool> = Vec::new();
    let mut edges: Vec<Vec<usize>> = Vec::new();
    let mut i: usize = 0;
    while i < m
        invariant
            pauli_set.wf(),
            ops == pauli_set@.ops,
            m == ops.len(),
            i <= m,
            alive@.len() == i,
            edges@.len() == i,
            forall|a: int| 0 <= a < i ==> alive@[a],
            forall|a: int| 0 <= a < i ==>
                (#[trigger] edges@[a])@ == clashing_before(ops, a, a as nat),
        decreases m - i,
    {
        let mut targets: Vec<usize> = Vec::new();
        let mut j: usize = 0;
        while j < i
            invariant
                pauli_set.wf(),
                ops == pauli_set@.ops,
                m == ops.len(),
                i < m,
                j <= i,
                targets@ == clashing_before(ops, i as int, j as nat),
            decreases i - j,
        {
            if !pauli_set.commute(i, j) {
                targets.push(j);
            }
            j += 1;
        }
        alive.push(true);
        edges.push(targets);
        i += 1;
    }
    let dag = Dag { alive, edges };
    proof {
        assert(dag@.alive =~= Seq::new(ops.len(), |i: int| true));
        assert(dag@.edges =~= Seq::new(ops.len(), |i: int| clashing_before(ops, i, i as nat)));
        assert forall|i: int, k: int|
            0 <= i < dag@.edges.len() && 0 <= k < dag@.edges[i].len() implies (
        #[trigger] dag@.edges[i][k]) < i by {
            lemma_clashing_before(ops, i, i as nat);
        }
    }
    dag
}

/// The places listed by `clashing_before` lie below `k`, and every place
/// below `k` whose string anticommutes with the string at place `i` is
/// listed.
pub proof fn lemma_clashing_before(ops: Seq<PauliString>, i: int, k: nat)
    requires
        k <= usize::MAX,
    ensures
        forall|j: int|
            0 <= j < k && !ops[i].commutes(ops[j]) ==> #[trigger] clashing_before(
                ops,
                i,
                k,
            ).contains(j as usize),
        forall|a: int|
            0 <= a < clashing_before(ops, i, k).len() ==> (#[trigger] clashing_before(ops, i, k)[a])
                < k,
    decreases k,
{
    if k > 0 {
        let rest = clashing_before(ops, i, (k - 1) as nat);
        let all = clashing_before(ops, i, k);
        lemma_clashing_before(ops, i, (k - 1) as nat);
        assert forall|a: int| 0 <= a < all.len() implies (#[trigger] all[a]) < k by {
            if a < rest.len() {
                assert(all[a] == rest[a]);
            }
        }
        assert forall|j: int| 0 <= j < k && !ops[i].commutes(ops[j]) implies
            #[trigger] all.contains(j as usize) by {
            if j < k - 1 {
                assert(rest.contains(j as usize));
                let a = choose|a: int| 0 <= a < rest.len() && rest[a] == j as usize;
                assert(all[a] == j as usize);
            } else {
                assert(all[all.len() - 1] == j as usize);
            }
        }
    }
}

/// Computes the front layer: the operators that can be synthesised, in
/// ascending order.
pub fn get_front_layer(dag: &Dag) -> (r: Vec<usize>)
    requires
        dag@.wf(),
    ensures
        r@ == dag@.front(),
{
    let mut front: Vec<usize> = Vec::new();
    let mut i: usize = 0;
    while i < dag.alive.len()
        invariant
            dag@.wf(),
            i <= dag@.alive.len(),
            front@ == dag@.free_nodes(i as nat),
        decreases dag@.alive.len() - i,
    {
        if dag.is_free(i) {
            front.push(i);
        }
        i += 1;
    }
    front
}

/// A sequence of operators with its dependency graph and its front layer.
pub struct PauliDag {
    /// A global set containing all the operators.
    pub pauli_set: PauliSet,
    /// The dependency graph.
    pub dag: Dag,
    /// A set containing only the operators of the front layer, in ascending
    /// order of their places (these operators pairwise commute).
    pub front_layer: PauliSet,
}

impl PauliDag {
    /// The parts fit together: the graph has a node for each operator, and
    /// the front layer holds the operators of the nodes of the front layer
    /// of the graph.
    pub open spec fn wf(&self) -> bool {
        &&& self.pauli_set.wf()
        &&& self.front_layer.wf()
        &&& self.dag@.wf()
        &&& self.dag@.alive.len() == self.pauli_set@.ops.len()
        &&& self.pauli_set@.ops.len() + 64 <= usize::MAX
        &&& self.front_layer.n == self.pauli_set.n
        &&& self.front_layer@.ops == picked(self.pauli_set@.ops, self.dag@.front())
    }

    /// Fills the empty front layer with the operators of the nodes `nodes`.
    fn refill(front_layer: &mut PauliSet, pauli_set: &PauliSet, nodes: &Vec<usize>)
        requires
            old(front_layer).wf(),
            pauli_set.wf(),
            old(front_layer).n == pauli_set.n,
            old(front_layer).noperators == 0,
            old(front_layer).start_offset == 0,
            pauli_set@.ops.len() + 64 <= usize::MAX,
            nodes@.len() <= pauli_set@.ops.len(),
            forall|k: int| 0 <= k < nodes@.len() ==> (#[trigger] nodes@[k]) < pauli_set@.ops.len(),
        ensures
            final(front_layer).wf(),
            final(front_layer).n == pauli_set.n,
            final(front_layer)@ == (PauliSetView {
                n: pauli_set.n as nat,
                ops: picked(pauli_set@.ops, nodes@),
            }),
    {
        let ghost ops = picked(pauli_set@.ops, nodes@);
        proof {
            front_layer.lemma_view_wf();
            pauli_set.lemma_view_wf();
            assert(front_layer@.ops =~= ops.take(0));
        }
        let mut k: usize = 0;
        while k < nodes.len()
            invariant
                front_layer.wf(),
                pauli_set.wf(),
                front_layer.n == pauli_set.n,
                front_layer.start_offset == 0,
                front_layer.noperators == k,
                pauli_set@.ops.len() + 64 <= usize::MAX,
                k <= nodes@.len(),
                nodes@.len() <= pauli_set@.ops.len(),
                forall|j: int|
                    0 <= j < nodes@.len() ==> (#[trigger] nodes@[j]) < pauli_set@.ops.len(),
                ops == picked(pauli_set@.ops, nodes@),
                front_layer@.n == pauli_set.n,
                front_layer@.ops == ops.take(k as int),
            decreases nodes@.len() - k,
        {
            let (phase, bits) = pauli_set.get_as_vec_bool(nodes[k]);
            proof {
                pauli_set.lemma_view_wf();
                front_layer.lemma_view_wf();
                let op = pauli_set@.ops[nodes@[k as int] as int];
                assert(op.wf(pauli_set.n as nat));
                lemma_bits_round_trip(op, pauli_set.n as nat);
                assert(ops.take(k + 1) =~= ops.take(k as int).push(op));
            }
            front_layer.insert_vec_bool(&bits, phase);
            k += 1;
        }
        proof {
            assert(ops.take(k as int) =~= ops);
        }
    }

    /// Constructs a `PauliDag` from a `PauliSet`.
    pub fn from_pauli_set(pauli_set: PauliSet) -> (r: Self)
        requires
            pauli_set.wf(),
            pauli_set@.ops.len() + 64 <= usize::MAX,
        ensures
            r.wf(),
            r.pauli_set@ == pauli_set@,
            r.pauli_set.n == pauli_set.n,
            r.dag@.alive == Seq::new(pauli_set@.ops.len(), |i: int| true),
            r.dag@.edges == Seq::new(
                pauli_set@.ops.len(),
                |i: int| clashing_before(pauli_set@.ops, i, i as nat),
            ),
    {
        proof {
            pauli_set.lemma_view_wf();
        }
        let nqbits = pauli_set.n;
        let dag = build_dag_from_pauli_set(&pauli_set);
        let indices_front_layer = get_front_layer(&dag);
        let _nodes = dag.alive.len();
        proof {
            lemma_free_nodes(dag@, dag@.alive.len());
        }
        let mut front_layer = PauliSet::new(nqbits);
        Self::refill(&mut front_layer, &pauli_set, &indices_front_layer);
        Self { pauli_set, dag, front_layer }
    }

    /// Constructs a `PauliDag` from a slice of axes.
    pub fn from_slice(axes: &[String]) -> (r: Self)
        requires
            axes@.len() + 64 <= usize::MAX,
            axes@.len() > 0 ==> 2 * axes@[0]@.len() <= usize::MAX,
            forall|k: int, q: int|
                0 <= k < axes@.len() && axes@[0]@.len() <= q < axes@[k]@.len() ==> {
                    let c = #[trigger] axes@[k]@[q];
                    c != 'X' && c != 'Y' && c != 'Z'
                },
        ensures
            r.wf(),
            r.pauli_set@.ops == Seq::new(
                axes@.len(),
                |k: int| PauliString::from_chars(axes@[k]@, false, r.pauli_set@.n),
            ),
            r.pauli_set@.n == (if axes@.len() == 0 {
                0
            } else {
                axes@[0]@.len()
            }),
            r.dag@.alive == Seq::new(axes@.len(), |i: int| true),
            r.dag@.edges == Seq::new(
                axes@.len(),
                |i: int| clashing_before(r.pauli_set@.ops, i, i as nat),
            ),
    {
        Self::from_pauli_set(PauliSet::from_slice(axes))
    }

    /// Removes the nodes of the front layer whose operators have become
    /// trivial, until none is left, and fills the front layer anew.
    fn update_front_layer(&mut self)
        requires
            old(self).pauli_set.wf(),
            old(self).front_layer.wf(),
            old(self).dag@.wf(),
            old(self).dag@.alive.len() == old(self).pauli_set@.ops.len(),
            old(self).pauli_set@.ops.len() + 64 <= usize::MAX,
            old(self).front_layer.n == old(self).pauli_set.n,
        ensures
            final(self).wf(),
            final(self).pauli_set@ == old(self).pauli_set@,
            final(self).pauli_set.n == old(self).pauli_set.n,
            final(self).dag@ == old(self).dag@.pruned(
                trivial_flags(old(self).pauli_set@.ops),
                old(self).pauli_set@.ops.len(),
            ),
    {
        let ghost before = self.dag@;
        let ghost trivial = trivial_flags(self.pauli_set@.ops);
        self.front_layer.clear();
        let m = self.dag.alive.len();
        let mut i: usize = 0;
        while i < m
            invariant
                self.pauli_set.wf(),
                self.pauli_set@ == old(self).pauli_set@,
                self.pauli_set.n == old(self).pauli_set.n,
                self.front_layer.wf(),
                self.front_layer.n == self.pauli_set.n,
                self.front_layer.noperators == 0,
                self.front_layer.start_offset == 0,
                before.wf(),
                before == old(self).dag@,
                m == before.alive.len(),
                m == self.pauli_set@.ops.len(),
                trivial == trivial_flags(self.pauli_set@.ops),
                i <= m,
                self.dag@ == before.pruned(trivial, i as nat),
                self.dag@.wf(),
                self.dag@.alive.len() == m,
            decreases m - i,
        {
            proof {
                lemma_pruned(before, trivial, (i + 1) as nat);
            }
            if self.dag.is_free(i) && self.pauli_set.support_size(i) <= 1 {
                self.dag.alive[i] = false;
            }
            i += 1;
            assert(self.dag@.edges =~= before.pruned(trivial, i as nat).edges);
            assert(self.dag@.alive =~= before.pruned(trivial, i as nat).alive);
        }
        let front = get_front_layer(&self.dag);
        proof {
            lemma_free_nodes(self.dag@, self.dag@.alive.len());
            self.front_layer.lemma_view_wf();
            self.pauli_set.lemma_view_wf();
        }
        Self::refill(&mut self.front_layer, &self.pauli_set, &front);
    }

    /// The front layer as a step of the search finds it: sorted by support
    /// size unless `skip_sort` is set.
    pub open spec fn ready_front(&self, skip_sort: bool) -> PauliSetView {
        if skip_sort {
            self.front_layer@
        } else {
            self.front_layer@.sorted()
        }
    }

    /// Performs a single synthesis step: one step of the search on the front
    /// layer, with the moves of the count policy taken on the support of its
    /// first operator. The gates of the step are applied to all the
    /// operators, the nodes of the front layer whose operators have become
    /// trivial are removed, and the front layer is filled anew. After the
    /// step no operator of the front layer is trivial, and a step on a front
    /// layer that is not empty returns a gate or removes a node.
    pub fn single_step_synthesis(&mut self, metric: &Metric, skip_sort: bool) -> (r:
        CliffordCircuit)
        requires
            old(self).wf(),
        ensures
            final(self).wf(),
            final(self).pauli_set.n == old(self).pauli_set.n,
            r.nqbits == old(self).pauli_set.n,
            all_fit(r@, old(self).pauli_set.n as nat),
            r@ == step_gates(old(self).ready_front(skip_sort), *metric, true),
            final(self).pauli_set@ == old(self).pauli_set@.conj_all(r@),
            final(self).dag@ == old(self).dag@.pruned(
                trivial_flags(final(self).pauli_set@.ops),
                old(self).pauli_set@.ops.len(),
            ),
            *metric is DEPTH ==> crate::clifford_circuit::depth_below(
                r@,
                true,
                old(self).pauli_set.n as nat,
            ) <= 1,
            forall|i: int|
                0 <= i < final(self).dag@.alive.len() && #[trigger] final(self).dag@.is_free(i)
                    ==> !final(self).pauli_set@.ops[i].is_trivial(),
            final(self).dag@.node_count() <= old(self).dag@.node_count(),
            old(self).front_layer@.ops.len() > 0 ==> r@.len() > 0 || final(self).dag@.node_count()
                < old(self).dag@.node_count(),
    {
        let ghost entered = self.front_layer@;
        let ghost master = self.pauli_set@;
        let ghost graph = self.dag@;
        proof {
            self.front_layer.lemma_view_wf();
            self.pauli_set.lemma_view_wf();
        }
        if !skip_sort {
            self.front_layer.support_size_sort();
        }
        let ghost ready = self.front_layer@;
        let circuit = synthesis_step(&mut self.front_layer, metric, true);
        // Updating the global set of operators
        self.pauli_set.conjugate_with_circuit(&circuit);
        proof {
            self.front_layer.lemma_view_wf();
            self.pauli_set.lemma_view_wf();
            lemma_view_conj_all(master, circuit@);
        }
        // Updating the front layer
        self.update_front_layer();
        proof {
            let trivial = trivial_flags(self.pauli_set@.ops);
            let m = master.ops.len();
            lemma_pruned(graph, trivial, m);
            lemma_count_alive_le(graph.alive, self.dag@.alive);
            if entered.ops.len() > 0 && circuit@.len() == 0 {
                lemma_view_conj_none(master);
                assert(circuit@ =~= Seq::<CliffordGate>::empty());
                lemma_free_nodes(graph, m);
                // The first operator of the front layer is trivial, and it is
                // the operator of a node of the front layer.
                let place: int = if skip_sort {
                    0
                } else {
                    let keys = entered.support_keys();
                    assert forall|j: int| 0 <= j < keys.len() implies #[trigger] keys[j]
                        <= entered.n by {
                        lemma_support_bound(entered.ops[j], entered.n);
                        assert(entered.ops[j].wf(entered.n));
                    }
                    lemma_stable_order(keys, entered.n);
                    stable_order(keys, entered.n)[0]
                };
                assert(ready.ops[0] == entered.ops[place]);
                let f = graph.front()[place] as int;
                assert(graph.is_free(f));
                assert(entered.ops[place] == master.ops[f]);
                assert(trivial[f]);
                assert(graph.alive[f] && !self.dag@.alive[f]);
            }
        }
        circuit
    }
}

} // verus!
