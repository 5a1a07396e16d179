//! The synthesis of a Pauli network that keeps the order of the operators,
//! up to exchanges of operators that commute.

use crate::clifford_circuit::{all_fit, CliffordCircuit, CliffordGate};
use crate::greedy_pauli_network::step_gates;
use crate::metric::Metric;
use crate::pauli_dag::{
    clashing_before, lemma_front_not_empty, lemma_pruned, picked, trivial_flags,
    DagView, PauliDag,
};
use crate::pauli_set::{PauliSet, PauliSetView};
use crate::symplectic::{lemma_conj_all_concat, PauliString};
use crate::synthesis::{covered, covers, lemma_covered_at_end, lemma_covered_longer};
use vstd::prelude::*;

verus! {

/// What the synthesis works on: all the operators, their dependency graph,
/// and the front layer.
pub struct DagState {
    pub master: PauliSetView,
    pub graph: DagView,
    pub front: PauliSetView,
}

/// The state of a `PauliDag`.
pub open spec fn state_of(dag: &PauliDag) -> DagState {
    DagState { master: dag.pauli_set@, graph: dag.dag@, front: dag.front_layer@ }
}

/// The state in which the synthesis starts on the operators of `v`: every
/// operator is a node of the graph, with an edge to each earlier operator
/// with which it anticommutes, and the front layer holds the operators of
/// the front layer of the graph.
pub open spec fn initial_state(v: PauliSetView) -> DagState {
    let graph = DagView {
        alive: Seq::new(v.ops.len(), |i: int| true),
        edges: Seq::new(v.ops.len(), |i: int| clashing_before(v.ops, i, i as nat)),
    };
    DagState { master: v, graph, front: PauliSetView { n: v.n, ops: picked(v.ops, graph.front()) } }
}

/// The gates of one step on the state: those of a step of the search on the
/// front layer, sorted by support size unless `skip_sort` is set.
pub open spec fn state_step_gates(s: DagState, metric: Metric, skip_sort: bool) -> Seq<
    CliffordGate,
> {
    step_gates(
        if skip_sort {
            s.front
        } else {
            s.front.sorted()
        },
        metric,
        true,
    )
}

/// The state after one step: all the operators are conjugated by the gates
/// of the step, the nodes of the front layer whose operators have become
/// trivial are removed, and the front layer is filled anew.
pub open spec fn state_after_step(s: DagState, metric: Metric, skip_sort: bool) -> DagState {
    let master = s.master.conj_all(state_step_gates(s, metric, skip_sort));
    let graph = s.graph.pruned(trivial_flags(master.ops), master.ops.len());
    DagState {
        master,
        graph,
        front: PauliSetView { n: s.master.n, ops: picked(master.ops, graph.front()) },
    }
}

/// The gates that the synthesis gives from the state `s` on, after it has
/// given the gates `out`. The synthesis ends when the front layer is empty.
/// It would also end after a step that neither removed a node nor gave a
/// gate, or that gave more gates than a circuit can hold.
pub open spec fn ordered_from(
    s: DagState,
    metric: Metric,
    skip_sort: bool,
    out: Seq<CliffordGate>,
) -> Seq<CliffordGate>
    decreases s.graph.node_count(), usize::MAX - out.len(),
{
    if s.front.ops.len() == 0 {
        out
    } else {
        let piece = state_step_gates(s, metric, skip_sort);
        let next = state_after_step(s, metric, skip_sort);
        if next.graph.node_count() < s.graph.node_count() || (next.graph.node_count()
            == s.graph.node_count() && piece.len() > 0 && out.len() + piece.len() <= usize::MAX) {
            ordered_from(next, metric, skip_sort, out + piece)
        } else {
            out
        }
    }
}

/// The gates of the Pauli network that the order-preserving synthesis gives
/// for the operators of `v`.
pub open spec fn ordered_network(v: PauliSetView, metric: Metric, skip_sort: bool) -> Seq<
    CliffordGate,
> {
    ordered_from(initial_state(v), metric, skip_sort, Seq::empty())
}

/// The operators of the state are those of `first` conjugated by `gates`,
/// and every operator of `first` is still a node of the graph or was covered
/// by `gates`.
pub open spec fn follows(first: Seq<PauliString>, s: DagState, gates: Seq<CliffordGate>) -> bool {
    &&& s.master.ops.len() == first.len()
    &&& s.graph.alive.len() == first.len()
    &&& forall|i: int|
        0 <= i < first.len() ==> #[trigger] s.master.ops[i] == first[i].conj_all(gates)
    &&& forall|i: int|
        0 <= i < first.len() ==> s.graph.alive[i] || covered(#[trigger] first[i], gates)
}

/// `times` gives for each string a point of the replay of `gates` at which
/// the string is trivial, and the point of a string is no later than the
/// point of a later string that anticommutes with it.
pub open spec fn covers_in_order(
    ops: Seq<PauliString>,
    gates: Seq<CliffordGate>,
    times: Seq<int>,
) -> bool {
    &&& times.len() == ops.len()
    &&& forall|i: int|
        0 <= i < ops.len() ==> 0 <= #[trigger] times[i] <= gates.len() && ops[i].conj_all(
            gates.take(times[i]),
        ).is_trivial()
    &&& forall|i: int, j: int|
        0 <= i < j < ops.len() && !ops[i].commutes(ops[j]) ==> #[trigger] times[i]
            <= #[trigger] times[j]
}

/// The circuit keeps the order of the strings: every string becomes trivial
/// at some point of the replay, and no later than any later string that
/// anticommutes with it.
pub open spec fn covered_in_order(ops: Seq<PauliString>, gates: Seq<CliffordGate>) -> bool {
    exists|times: Seq<int>| covers_in_order(ops, gates, times)
}

/// The nodes that are gone have left in order: `times` gives for each of
/// them a point of the replay of `gates` at which its string is trivial, and
/// the nodes that it points to are gone and have left no later.
pub open spec fn left_in_order(
    first: Seq<PauliString>,
    graph: DagView,
    gates: Seq<CliffordGate>,
    times: Seq<int>,
) -> bool {
    &&& times.len() == first.len()
    &&& forall|i: int|
        0 <= i < first.len() && !graph.alive[i] ==> 0 <= #[trigger] times[i] <= gates.len()
            && first[i].conj_all(gates.take(times[i])).is_trivial()
    &&& forall|j: int, t: int|
        0 <= j < first.len() && !graph.alive[j] && 0 <= t < graph.edges[j].len() ==> {
            let i = #[trigger] graph.edges[j][t] as int;
            !graph.alive[i] && times[i] <= times[j]
        }
}

/// A greedy synthesis method that preserves the sequence of the operators up
/// to exchanges of commuting operators. Returns the gates of the network:
/// replayed on the operators, they make every one of them trivial at some
/// point, and no later than any later operator that anticommutes with it.
/// The operators of `axes` are left as they are.
pub fn pauli_network_synthesis_no_permutation(
    axes: &mut PauliSet,
    metric: &Metric,
    skip_sort: bool,
) -> (r: CliffordCircuit)
    requires
        old(axes).wf(),
        old(axes)@.ops.len() + 64 <= usize::MAX,
    ensures
        final(axes).wf(),
        final(axes).n == old(axes).n,
        final(axes)@ == old(axes)@,
        r.nqbits == old(axes).n,
        r@ == ordered_network(old(axes)@, *metric, skip_sort),
        all_fit(r@, old(axes).n as nat),
        r.wf(),
        covers(old(axes)@.ops, r@),
        covered_in_order(old(axes)@.ops, r@),
        old(axes)@.ops.len() == 0 ==> r@.len() == 0,
{
    let ghost first = axes@;
    proof {
        axes.lemma_view_wf();
    }
    let mut dag = PauliDag::from_pauli_set(axes.copy());
    let mut circuit = CliffordCircuit::new(dag.pauli_set.n);
    proof {
        dag.front_layer.lemma_view_wf();
        assert(state_of(&dag).graph == initial_state(first).graph);
        assert(state_of(&dag).front == initial_state(first).front);
        assert(state_of(&dag) == initial_state(first));
        assert forall|i: int| 0 <= i < first.ops.len() implies #[trigger] dag.pauli_set@.ops[i]
            == first.ops[i].conj_all(circuit@) by {}
    }
    let ghost mut times: Seq<int> = Seq::new(first.ops.len(), |i: int| 0int);
    while dag.front_layer.len() > 0
        invariant
            dag.wf(),
            dag.pauli_set.n == old(axes).n,
            circuit.nqbits == old(axes).n,
            all_fit(circuit@, old(axes).n as nat),
            ordered_from(state_of(&dag), *metric, skip_sort, circuit@) == ordered_network(
                first,
                *metric,
                skip_sort,
            ),
            follows(first.ops, state_of(&dag), circuit@),
            first == old(axes)@,
            dag.dag@.edges == initial_state(first).graph.edges,
            left_in_order(first.ops, dag.dag@, circuit@, times),
        decreases dag.dag@.node_count(), usize::MAX - circuit@.len(),
    {
        let ghost before = state_of(&dag);
        let ghost gates = circuit@;
        proof {
            dag.pauli_set.lemma_view_wf();
        }
        let piece = dag.single_step_synthesis(metric, skip_sort);
        circuit.extend_with(&piece);
        let _total = circuit.gates.len();
        proof {
            let after = state_of(&dag);
            dag.front_layer.lemma_view_wf();
            dag.pauli_set.lemma_view_wf();
            assert(after.master == state_after_step(before, *metric, skip_sort).master);
            assert(after.graph == state_after_step(before, *metric, skip_sort).graph);
            assert(after.front == state_after_step(before, *metric, skip_sort).front);
            assert(after == state_after_step(before, *metric, skip_sort));
            assert(piece@ == state_step_gates(before, *metric, skip_sort));
            let trivial = trivial_flags(after.master.ops);
            lemma_pruned(before.graph, trivial, first.ops.len());
            assert forall|i: int| 0 <= i < first.ops.len() implies #[trigger] after.master.ops[i]
                == first.ops[i].conj_all(gates + piece@) by {
                lemma_conj_all_concat(first.ops[i], gates, piece@);
            }
            assert forall|i: int| 0 <= i < first.ops.len() implies after.graph.alive[i] || covered(
                #[trigger] first.ops[i],
                gates + piece@,
            ) by {
                if !after.graph.alive[i] {
                    if before.graph.alive[i] {
                        assert(trivial[i]);
                        lemma_covered_at_end(first.ops[i], gates + piece@);
                    } else {
                        lemma_covered_longer(first.ops[i], gates, piece@);
                    }
                }
            }
            let now = (gates + piece@).len() as int;
            let earlier = times;
            times = Seq::new(
                first.ops.len(),
                |i: int|
                    if before.graph.alive[i] && !after.graph.alive[i] {
                        now
                    } else {
                        earlier[i]
                    },
            );
            assert forall|i: int| 0 <= i < first.ops.len() && !after.graph.alive[i] implies 0
                <= #[trigger] times[i] <= (gates + piece@).len() && first.ops[i].conj_all(
                (gates + piece@).take(times[i]),
            ).is_trivial() by {
                if before.graph.alive[i] {
                    assert(trivial[i]);
                    assert((gates + piece@).take(now) =~= gates + piece@);
                } else {
                    assert((gates + piece@).take(earlier[i]) =~= gates.take(earlier[i]));
                }
            }
            assert forall|j: int, t: int|
                0 <= j < first.ops.len() && !after.graph.alive[j] && 0 <= t
                    < after.graph.edges[j].len() implies {
                let i = #[trigger] after.graph.edges[j][t] as int;
                !after.graph.alive[i] && times[i] <= times[j]
            } by {
                let i = after.graph.edges[j][t] as int;
                assert(after.graph.edges[j][t] < j);
                if before.graph.alive[j] {
                    assert(after.graph.unblocked(j));
                    assert(!after.graph.alive[i]);
                    if !before.graph.alive[i] {
                        assert(0 <= earlier[i] <= gates.len());
                    }
                } else {
                    assert(before.graph.edges[j][t] as int == i);
                    assert(!before.graph.alive[i] && earlier[i] <= earlier[j]);
                }
            }
        }
    }
    proof {
        let last = state_of(&dag);
        assert forall|i: int| 0 <= i < first.ops.len() implies covered(
            #[trigger] first.ops[i],
            circuit@,
        ) by {
            if last.graph.alive[i] {
                lemma_front_not_empty(last.graph, i);
            }
        }
        assert forall|i: int| 0 <= i < first.ops.len() implies !#[trigger] last.graph.alive[i] by {
            if last.graph.alive[i] {
                lemma_front_not_empty(last.graph, i);
            }
        }
        assert forall|i: int, j: int|
            0 <= i < j < first.ops.len() && !first.ops[i].commutes(first.ops[j]) implies
            #[trigger] times[i] <= #[trigger] times[j] by {
            assert(first.ops[i].wf(first.n) && first.ops[j].wf(first.n));
            crate::symplectic::lemma_commutes_symmetric(first.ops[i], first.ops[j]);
            crate::pauli_dag::lemma_clashing_before(first.ops, j, j as nat);
            let targets = clashing_before(first.ops, j, j as nat);
            assert(targets.contains(i as usize));
            let t = choose|t: int| 0 <= t < targets.len() && targets[t] == i as usize;
            assert(last.graph.edges[j] == targets);
            assert(last.graph.edges[j][t] as int == i);
        }
        assert(covers_in_order(first.ops, circuit@, times));
    }
    circuit
}

} // verus!
