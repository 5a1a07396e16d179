//! The synthesis of a Pauli network when the operators may be taken in any
//! order: sort the operators, drop those that have become trivial, take one
//! step of the search, and start again until no operator is left.

use crate::clifford_circuit::{all_fit, CliffordCircuit, CliffordGate};
use crate::greedy_order_preserving::{ordered_network, pauli_network_synthesis_no_permutation};
use crate::greedy_pauli_network::{step_gates, synthesis_step};
use crate::metric::Metric;
use crate::pauli_set::{PauliSet, PauliSetView};
use crate::shuffle::{
    is_relabeling, lemma_relabel_count, lemma_relabel_covers, lemma_relabel_depth, permute_circuit,
    permute_input,
};
use crate::sorting::{lemma_stable_order, stable_order};
use crate::symplectic::{lemma_conj_all_concat, lemma_support_bound, PauliString};
use vstd::prelude::*;

verus! {

/// The container after the operators at its front that are trivial have
/// left, one after the other.
pub open spec fn pruned(v: PauliSetView) -> PauliSetView
    decreases v.ops.len(),
{
    if v.ops.len() > 0 && v.ops[0].is_trivial() {
        pruned(v.pop())
    } else {
        v
    }
}

/// The container as a step of the search finds it: sorted by support size
/// unless `skip_sort` is set, and without the trivial operators at its front.
pub open spec fn prepared(v: PauliSetView, skip_sort: bool) -> PauliSetView {
    pruned(
        if skip_sort {
            v
        } else {
            v.sorted()
        },
    )
}

/// The gates that the synthesis gives for the container `v` after it has
/// given the gates `out`. The synthesis ends when no operator is left after
/// the container has been prepared. It would also end if a step gave no gate,
/// or more gates than a circuit can hold.
pub open spec fn synthesis_from(
    v: PauliSetView,
    metric: Metric,
    skip_sort: bool,
    out: Seq<CliffordGate>,
) -> Seq<CliffordGate>
    decreases usize::MAX - out.len(),
{
    let p = prepared(v, skip_sort);
    if p.ops.len() == 0 {
        out
    } else {
        let piece = step_gates(p, metric, false);
        if piece.len() == 0 || out.len() + piece.len() > usize::MAX {
            out
        } else {
            synthesis_from(p.conj_all(piece), metric, skip_sort, out + piece)
        }
    }
}

/// The gates of the Pauli network that the synthesis gives for the
/// container `v`.
pub open spec fn pauli_network(v: PauliSetView, metric: Metric, skip_sort: bool) -> Seq<
    CliffordGate,
> {
    synthesis_from(v, metric, skip_sort, Seq::empty())
}

/// The string `p` becomes trivial at some point while it is conjugated by
/// the gates of `gates` one after the other.
pub open spec fn covered(p: PauliString, gates: Seq<CliffordGate>) -> bool {
    exists|k: int| 0 <= k <= gates.len() && #[trigger] p.conj_all(gates.take(k)).is_trivial()
}

/// Every string of `ops` becomes trivial at some point while it is
/// conjugated by the gates of `gates` one after the other.
pub open spec fn covers(ops: Seq<PauliString>, gates: Seq<CliffordGate>) -> bool {
    forall|i: int| 0 <= i < ops.len() ==> covered(#[trigger] ops[i], gates)
}

/// A string that a circuit covers is covered by every longer circuit.
pub proof fn lemma_covered_longer(p: PauliString, gates: Seq<CliffordGate>, more: Seq<CliffordGate>)
    requires
        covered(p, gates),
    ensures
        covered(p, gates + more),
{
    let k = choose|k: int| 0 <= k <= gates.len() &&
        #[trigger] p.conj_all(gates.take(k)).is_trivial();
    assert((gates + more).take(k) =~= gates.take(k));
}

/// A string that is trivial after a circuit is covered by it.
pub proof fn lemma_covered_at_end(p: PauliString, gates: Seq<CliffordGate>)
    requires
        p.conj_all(gates).is_trivial(),
    ensures
        covered(p, gates),
{
    assert(gates.take(gates.len() as int) =~= gates);
}

/// Where the operators of a container come from: `origin[k]` is the place
/// among `first` of the operator that is now the `k`-th, and every operator
/// of `first` is still in the container or was covered by `gates`.
pub open spec fn tracks(
    first: Seq<PauliString>,
    now: Seq<PauliString>,
    origin: Seq<int>,
    gates: Seq<CliffordGate>,
) -> bool {
    &&& origin.len() == now.len()
    &&& forall|k: int|
        0 <= k < now.len() ==> 0 <= #[trigger] origin[k] < first.len() && now[k]
            == first[origin[k]].conj_all(gates)
    &&& forall|i: int|
        0 <= i < first.len() ==> origin.contains(i) || covered(#[trigger] first[i], gates)
}

/// Sorting keeps track: the origins are sorted along.
proof fn lemma_tracks_sorted(
    first: Seq<PauliString>,
    v: PauliSetView,
    origin: Seq<int>,
    gates: Seq<CliffordGate>,
)
    requires
        v.wf(),
        tracks(first, v.ops, origin, gates),
    ensures
        tracks(
            first,
            v.sorted().ops,
            stable_order(v.support_keys(), v.n).map_values(|j: int| origin[j]),
            gates,
        ),
        v.sorted().wf(),
{
    let keys = v.support_keys();
    let order = stable_order(keys, v.n);
    assert forall|j: int| 0 <= j < keys.len() implies #[trigger] keys[j] <= v.n by {
        lemma_support_bound(v.ops[j], v.n);
        assert(v.ops[j].wf(v.n));
    }
    lemma_stable_order(keys, v.n);
    let moved = order.map_values(|j: int| origin[j]);
    assert forall|i: int| 0 <= i < first.len() implies moved.contains(i) || covered(
        #[trigger] first[i],
        gates,
    ) by {
        if origin.contains(i) {
            let k = choose|k: int| 0 <= k < origin.len() && origin[k] == i;
            assert(order.contains(k));
            let a = choose|a: int| 0 <= a < order.len() && order[a] == k;
            assert(moved[a] == i);
        }
    }
}

/// The exit of the front operator keeps track: the operator was trivial, so
/// it is covered.
proof fn lemma_tracks_popped(
    first: Seq<PauliString>,
    v: PauliSetView,
    origin: Seq<int>,
    gates: Seq<CliffordGate>,
)
    requires
        v.ops.len() > 0,
        v.ops[0].is_trivial(),
        tracks(first, v.ops, origin, gates),
    ensures
        tracks(first, v.pop().ops, origin.drop_first(), gates),
{
    let rest = origin.drop_first();
    assert forall|i: int| 0 <= i < first.len() implies rest.contains(i) || covered(
        #[trigger] first[i],
        gates,
    ) by {
        if origin.contains(i) {
            let k = choose|k: int| 0 <= k < origin.len() && origin[k] == i;
            if k == 0 {
                lemma_covered_at_end(first[i], gates);
            } else {
                assert(rest[k - 1] == i);
            }
        }
    }
}

/// A step keeps track: every operator is conjugated by the new gates.
proof fn lemma_tracks_conj(
    first: Seq<PauliString>,
    v: PauliSetView,
    origin: Seq<int>,
    gates: Seq<CliffordGate>,
    piece: Seq<CliffordGate>,
)
    requires
        tracks(first, v.ops, origin, gates),
    ensures
        tracks(first, v.conj_all(piece).ops, origin, gates + piece),
{
    let after = v.conj_all(piece).ops;
    assert forall|k: int| 0 <= k < after.len() implies 0 <= #[trigger] origin[k] < first.len()
        && after[k] == first[origin[k]].conj_all(gates + piece) by {
        lemma_conj_all_concat(first[origin[k]], gates, piece);
    }
    assert forall|i: int| 0 <= i < first.len() implies origin.contains(i) || covered(
        #[trigger] first[i],
        gates + piece,
    ) by {
        if !origin.contains(i) {
            lemma_covered_longer(first[i], gates, piece);
        }
    }
}

/// Synthesises a Pauli network for the operators of `bucket`, which may be
/// taken in any order, and empties the bucket. Returns the gates of the
/// network: replayed on the operators, they make every one of them trivial at
/// some point. The circuit is on 0 qubits if the bucket holds no operator.
pub fn pauli_network_synthesis(bucket: &mut PauliSet, metric: &Metric, skip_sort: bool) -> (r:
    CliffordCircuit)
    requires
        old(bucket).wf(),
    ensures
        final(bucket).wf(),
        final(bucket).n == old(bucket).n,
        final(bucket)@.ops.len() == 0,
        r.nqbits == (if old(bucket)@.ops.len() == 0 {
            0
        } else {
            old(bucket).n
        }),
        r@ == pauli_network(old(bucket)@, *metric, skip_sort),
        all_fit(r@, old(bucket).n as nat),
        r.wf(),
        covers(old(bucket)@.ops, r@),
        old(bucket)@.ops.len() == 0 ==> r@.len() == 0,
{
    if bucket.len() == 0 {
        proof {
            let v = old(bucket)@;
            bucket.lemma_view_wf();
            assert(v.sorted().ops =~= Seq::<PauliString>::empty()) by {
                let keys = v.support_keys();
                lemma_stable_order(keys, v.n);
            }
        }
        return CliffordCircuit::new(0);
    }
    let nqbits = bucket.n;
    let mut output = CliffordCircuit::new(nqbits);
    let ghost first = bucket@;
    let ghost mut origin: Seq<int> = Seq::new(first.ops.len(), |k: int| k);
    proof {
        bucket.lemma_view_wf();
        assert forall|k: int| 0 <= k < first.ops.len() implies first.ops[k]
            == first.ops[origin[k]].conj_all(output@) by {}
        assert forall|i: int| 0 <= i < first.ops.len() implies origin.contains(i) by {
            assert(origin[i] == i);
        }
    }
    loop
        invariant_except_break
            synthesis_from(bucket@, *metric, skip_sort, output@) == pauli_network(
                first,
                *metric,
                skip_sort,
            ),
        invariant
            bucket.wf(),
            bucket.n == nqbits,
            nqbits == old(bucket).n,
            first == old(bucket)@,
            output.nqbits == nqbits,
            all_fit(output@, nqbits as nat),
            tracks(first.ops, bucket@.ops, origin, output@),
        ensures
            bucket.wf(),
            bucket.n == nqbits,
            bucket@.ops.len() == 0,
            output.nqbits == nqbits,
            all_fit(output@, nqbits as nat),
            output@ == pauli_network(first, *metric, skip_sort),
            tracks(first.ops, bucket@.ops, origin, output@),
        decreases usize::MAX - output@.len(),
    {
        let ghost entered = bucket@;
        proof {
            bucket.lemma_view_wf();
        }
        if !skip_sort {
            proof {
                lemma_tracks_sorted(first.ops, entered, origin, output@);
                origin = stable_order(entered.support_keys(), entered.n).map_values(
                    |j: int| origin[j],
                );
            }
            bucket.support_size_sort();
        }
        let ghost sorted = bucket@;
        proof {
            bucket.lemma_view_wf();
        }
        while bucket.len() > 0 && bucket.support_size(0) <= 1
            invariant
                bucket.wf(),
                bucket.n == nqbits,
                pruned(bucket@) == pruned(sorted),
                tracks(first.ops, bucket@.ops, origin, output@),
            decreases bucket@.ops.len(),
        {
            proof {
                lemma_tracks_popped(first.ops, bucket@, origin, output@);
                origin = origin.drop_first();
            }
            bucket.pop();
            proof {
                bucket.lemma_view_wf();
            }
        }
        assert(bucket@ == prepared(entered, skip_sort));
        if bucket.len() == 0 {
            break ;
        }
        let ghost ready = bucket@;
        let circuit_piece = synthesis_step(bucket, metric, false);
        let ghost before = output@;
        output.extend_with(&circuit_piece);
        let _total = output.gates.len();
        proof {
            lemma_tracks_conj(first.ops, ready, origin, before, circuit_piece@);
            assert(before.len() + circuit_piece@.len() <= usize::MAX);
        }
    }
    proof {
        assert forall|i: int| 0 <= i < first.ops.len() implies covered(
            #[trigger] first.ops[i],
            output@,
        ) by {
            if origin.contains(i) {
                let k = choose|k: int| 0 <= k < origin.len() && origin[k] == i;
            }
        }
    }
    output
}

/// The positive operators that the strings of `data` stand for, on as many
/// qubits as the first string has letters.
pub open spec fn slice_ops(data: Seq<String>) -> Seq<PauliString> {
    Seq::new(
        data.len(),
        |k: int|
            PauliString::from_chars(
                data[k]@,
                false,
                if data.len() == 0 {
                    0
                } else {
                    data[0]@.len()
                },
            ),
    )
}

/// A circuit with one more gate covers a string if the circuit without
/// that gate covers it or if the string is trivial after all the gates.
pub proof fn lemma_covered_step(p: PauliString, gates: Seq<CliffordGate>)
    requires
        gates.len() > 0,
    ensures
        covered(p, gates) == (covered(p, gates.drop_last()) || p.conj_all(gates).is_trivial()),
{
    let init = gates.drop_last();
    if covered(p, gates) {
        let k = choose|k: int|
            0 <= k <= gates.len() && #[trigger] p.conj_all(gates.take(k)).is_trivial();
        if k < gates.len() {
            assert(init.take(k) =~= gates.take(k));
        } else {
            assert(gates.take(k) =~= gates);
        }
    }
    if covered(p, init) {
        let k = choose|k: int|
            0 <= k <= init.len() && #[trigger] p.conj_all(init.take(k)).is_trivial();
        assert(init.take(k) =~= gates.take(k));
    }
    if p.conj_all(gates).is_trivial() {
        lemma_covered_at_end(p, gates);
    }
}

/// Marks the operators of the bucket that are trivial.
fn mark_trivial(bucket: &PauliSet, hit: &mut Vec<bool>)
    requires
        bucket.wf(),
        old(hit)@.len() == bucket@.ops.len(),
    ensures
        final(hit)@.len() == old(hit)@.len(),
        forall|i: int|
            0 <= i < old(hit)@.len() ==> #[trigger] final(hit)@[i] == (old(hit)@[i]
                || bucket@.ops[i].is_trivial()),
{
    let mut i: usize = 0;
    while i < bucket.len()
        invariant
            bucket.wf(),
            hit@.len() == bucket@.ops.len(),
            hit@.len() == old(hit)@.len(),
            i <= hit@.len(),
            forall|j: int|
                0 <= j < i ==> #[trigger] hit@[j] == (old(hit)@[j] || bucket@.ops[j].is_trivial()),
            forall|j: int| i <= j < hit@.len() ==> #[trigger] hit@[j] == old(hit)@[j],
        decreases hit@.len() - i,
    {
        if bucket.support_size(i) <= 1 {
            hit[i] = true;
        }
        i += 1;
    }
}

/// Checks a circuit against the operators that it was synthesised for: the
/// gates are replayed on the operators, and the check holds if every
/// operator is trivial at some point of the replay.
pub fn check_circuit(input: &[String], circuit: &CliffordCircuit) -> (r: bool)
    requires
        input@.len() + 64 <= usize::MAX,
        input@.len() > 0 ==> 2 * input@[0]@.len() <= usize::MAX,
        forall|k: int, q: int|
            0 <= k < input@.len() && input@[0]@.len() <= q < input@[k]@.len() ==> {
                let c = #[trigger] input@[k]@[q];
                c != 'X' && c != 'Y' && c != 'Z'
            },
        all_fit(
            circuit@,
            if input@.len() == 0 {
                0
            } else {
                input@[0]@.len()
            },
        ),
    ensures
        r == covers(slice_ops(input@), circuit@),
{
    let mut bucket = PauliSet::from_slice(input);
    let ghost first = bucket@.ops;
    proof {
        bucket.lemma_view_wf();
        assert(first =~= slice_ops(input@));
    }
    let mut hit: Vec<bool> = Vec::new();
    let mut i: usize = 0;
    while i < bucket.len()
        invariant
            i <= bucket@.ops.len(),
            hit@.len() == i,
            forall|j: int| 0 <= j < i ==> !hit@[j],
        decreases bucket@.ops.len() - i,
    {
        hit.push(false);
        i += 1;
    }
    mark_trivial(&bucket, &mut hit);
    proof {
        assert forall|i: int| 0 <= i < first.len() implies #[trigger] hit@[i] == covered(
            first[i],
            circuit@.take(0),
        ) by {
            let none = circuit@.take(0);
            assert(none =~= Seq::<CliffordGate>::empty());
            assert(none.take(0) =~= none);
            assert(first[i].conj_all(none) == first[i]);
            assert(bucket@.ops[i] == first[i]);
            if first[i].is_trivial() {
                lemma_covered_at_end(first[i], none);
            }
            if covered(first[i], none) {
                let k = choose|k: int|
                    0 <= k <= none.len() && #[trigger] first[i].conj_all(none.take(k)).is_trivial();
                assert(none.take(k) =~= none);
            }
        }
        assert forall|i: int| 0 <= i < first.len() implies #[trigger] bucket@.ops[i]
            == first[i].conj_all(circuit@.take(0)) by {}
    }
    let mut k: usize = 0;
    while k < circuit.gates.len()
        invariant
            bucket.wf(),
            bucket@.n == (if input@.len() == 0 {
                0
            } else {
                input@[0]@.len()
            }),
            bucket.n == bucket@.n,
            all_fit(circuit@, bucket.n as nat),
            k <= circuit@.len(),
            hit@.len() == first.len(),
            bucket@.ops.len() == first.len(),
            forall|i: int|
                0 <= i < first.len() ==> #[trigger] bucket@.ops[i] == first[i].conj_all(
                    circuit@.take(k as int),
                ),
            forall|i: int|
                0 <= i < first.len() ==> #[trigger] hit@[i] == covered(
                    first[i],
                    circuit@.take(k as int),
                ),
        decreases circuit@.len() - k,
    {
        let ghost before = bucket@;
        bucket.conjugate_with_gate(&circuit.gates[k]);
        proof {
            bucket.lemma_view_wf();
            let next = circuit@.take(k + 1);
            assert(next.drop_last() =~= circuit@.take(k as int));
            assert(next.last() == circuit@[k as int]);
            assert forall|i: int| 0 <= i < first.len() implies #[trigger] bucket@.ops[i]
                == first[i].conj_all(next) by {
                assert(bucket@.ops[i] == before.ops[i].conj(circuit@[k as int]));
            }
        }
        let ghost marked = hit@;
        mark_trivial(&bucket, &mut hit);
        proof {
            let next = circuit@.take(k + 1);
            assert forall|i: int| 0 <= i < first.len() implies #[trigger] hit@[i] == covered(
                first[i],
                next,
            ) by {
                lemma_covered_step(first[i], next);
                assert(next.drop_last() =~= circuit@.take(k as int));
            }
        }
        k += 1;
    }
    assert(circuit@.take(k as int) =~= circuit@);
    let mut all = true;
    let mut i: usize = 0;
    while i < hit.len()
        invariant
            i <= hit@.len(),
            all == (forall|j: int| 0 <= j < i ==> hit@[j]),
        decreases hit@.len() - i,
    {
        if !hit[i] {
            all = false;
        }
        i += 1;
    }
    proof {
        if all {
            assert forall|i: int| 0 <= i < first.len() implies covered(
                #[trigger] first[i],
                circuit@,
            ) by {
                assert(hit@[i]);
            }
        } else {
            let j = choose|j: int| 0 <= j < hit@.len() && !hit@[j];
            assert(!covered(first[j], circuit@));
        }
    }
    all
}

/// The gates of the Pauli network that the synthesis gives for the
/// operators of `v`, with their order kept or not.
pub open spec fn network_of(
    v: PauliSetView,
    metric: Metric,
    preserve_order: bool,
    skip_sort: bool,
) -> Seq<CliffordGate> {
    if preserve_order {
        ordered_network(v, metric, skip_sort)
    } else {
        pauli_network(v, metric, skip_sort)
    }
}

/// The synthesis is deterministic: two containers that hold the same
/// operators in the same order, whatever has entered and left them before,
/// get the same network under the same policy.
pub proof fn lemma_network_deterministic(
    a: PauliSetView,
    b: PauliSetView,
    metric: Metric,
    preserve_order: bool,
    skip_sort: bool,
)
    requires
        a.n == b.n,
        a.ops.len() == b.ops.len(),
        forall|k: int| 0 <= k < a.ops.len() ==> a.ops[k] == b.ops[k],
    ensures
        network_of(a, metric, preserve_order, skip_sort) == network_of(
            b,
            metric,
            preserve_order,
            skip_sort,
        ),
{
    assert(a.ops =~= b.ops);
}

/// Synthesises a Pauli network for the operators of `bucket` by one of the
/// two methods.
fn synthesise(bucket: &mut PauliSet, metric: &Metric, preserve_order: bool, skip_sort: bool) -> (r:
    CliffordCircuit)
    requires
        old(bucket).wf(),
        old(bucket)@.ops.len() + 64 <= usize::MAX,
    ensures
        r.nqbits == (if old(bucket)@.ops.len() == 0 && !preserve_order {
            0
        } else {
            old(bucket).n
        }),
        r@ == network_of(old(bucket)@, *metric, preserve_order, skip_sort),
        all_fit(r@, old(bucket).n as nat),
        r.wf(),
        covers(old(bucket)@.ops, r@),
        old(bucket)@.ops.len() == 0 ==> r@.len() == 0,
{
    if preserve_order {
        pauli_network_synthesis_no_permutation(bucket, metric, skip_sort)
    } else {
        pauli_network_synthesis(bucket, metric, skip_sort)
    }
}

/// Synthesises a Pauli network for a sequence of operators, with their order
/// kept up to exchanges of commuting operators if `preserve_order` is set.
/// After the synthesis on the operators as they are, `nshuffles` more are
/// made on the operators with their qubits shuffled at random, and the
/// cheapest circuit under the metric is returned, the first found among
/// equally cheap ones. Whatever the shuffles, the circuit covers the
/// operators and costs no more than the circuit of the first synthesis. The
/// operators are left as they are.
pub fn greedy_pauli_network(
    operator_sequence: &mut PauliSet,
    metric: &Metric,
    preserve_order: bool,
    nshuffles: usize,
    skip_sort: bool,
) -> (r: CliffordCircuit)
    requires
        old(operator_sequence).wf(),
        old(operator_sequence)@.ops.len() + 64 <= usize::MAX,
    ensures
        final(operator_sequence).wf(),
        final(operator_sequence).n == old(operator_sequence).n,
        final(operator_sequence)@ == old(operator_sequence)@,
        r.nqbits == (if old(operator_sequence)@.ops.len() == 0 && !preserve_order {
            0
        } else {
            old(operator_sequence).n
        }),
        r.wf(),
        all_fit(r@, old(operator_sequence).n as nat),
        covers(old(operator_sequence)@.ops, r@),
        nshuffles == 0 ==> r@ == network_of(
            old(operator_sequence)@,
            *metric,
            preserve_order,
            skip_sort,
        ),
        metric.spec_on(r@, r.nqbits as nat) <= metric.spec_on(
            network_of(old(operator_sequence)@, *metric, preserve_order, skip_sort),
            r.nqbits as nat,
        ),
{
    let ghost first = operator_sequence@;
    let n = operator_sequence.n;
    proof {
        operator_sequence.lemma_view_wf();
    }
    let mut work = operator_sequence.copy();
    let mut circuit = synthesise(&mut work, metric, preserve_order, skip_sort);
    let mut cost = metric.on_circuit(&circuit);
    let ghost base_cost = cost;
    let mut round: usize = 0;
    while round < nshuffles
        invariant
            operator_sequence.wf(),
            operator_sequence.n == n,
            operator_sequence@ == first,
            first.wf(),
            first.n == n,
            first.ops.len() + 64 <= usize::MAX,
            round <= nshuffles,
            circuit.nqbits == (if first.ops.len() == 0 && !preserve_order {
                0
            } else {
                n
            }),
            circuit.wf(),
            all_fit(circuit@, n as nat),
            covers(first.ops, circuit@),
            round == 0 ==> circuit@ == network_of(first, *metric, preserve_order, skip_sort),
            cost == metric.spec_on(circuit@, circuit.nqbits as nat),
            cost <= base_cost,
            first.ops.len() == 0 ==> circuit@.len() == 0,
        decreases nshuffles - round,
    {
        let mut pset = operator_sequence.copy();
        let permutation = permute_input(&mut pset);
        let ghost shuffled = pset@;
        proof {
            pset.lemma_view_wf();
        }
        let new_circuit = synthesise(&mut pset, metric, preserve_order, skip_sort);
        let new_cost = metric.on_circuit(&new_circuit);
        if new_cost < cost {
            proof {
                let back = choose|back: Seq<usize>| is_relabeling(permutation@, back, n as nat);
                lemma_relabel_covers(first.ops, new_circuit@, permutation@, back, n as nat);
                lemma_relabel_count(new_circuit@, permutation@, true);
                lemma_relabel_depth(new_circuit@, permutation@, back, n as nat, true);
                if first.ops.len() == 0 {
                    lemma_empty_costs_nothing(*metric, new_circuit@, new_circuit.nqbits as nat);
                }
            }
            cost = new_cost;
            circuit = permute_circuit(&new_circuit, &permutation);
        }
        round += 1;
    }
    circuit
}

/// A circuit without gates costs nothing.
pub proof fn lemma_empty_costs_nothing(metric: Metric, gates: Seq<CliffordGate>, n: nat)
    requires
        gates.len() == 0,
    ensures
        metric.spec_on(gates, n) == 0,
    decreases n,
{
    if n > 0 {
        lemma_empty_costs_nothing(Metric::DEPTH, gates, (n - 1) as nat);
    }
}

} // verus!
