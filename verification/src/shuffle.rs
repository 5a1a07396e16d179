//! Random relabelings of the qubits: the synthesis is a heuristic, and the
//! same operators on shuffled qubits may get a cheaper circuit, which is
//! then written back over the qubits as they were.

use crate::clifford_circuit::{
    all_fit, count_gates, depth_below, lemma_depth_below_is_max, qbit_depth, CliffordCircuit,
    CliffordGate,
};
use crate::moves::{lemma_two_in_support, two_letters};
use crate::pauli_set::{PauliSet, PauliSetView};
use crate::random::random_between;
use crate::symplectic::PauliString;
use crate::synthesis::{covered, covers};
use vstd::prelude::*;

verus! {

/// `perm` and `back` are a relabeling of `n` qubits and its inverse.
pub open spec fn is_relabeling(perm: Seq<usize>, back: Seq<usize>, n: nat) -> bool {
    &&& perm.len() == n
    &&& back.len() == n
    &&& forall|k: int| 0 <= k < n ==> (#[trigger] perm[k]) < n && back[perm[k] as int] == k
    &&& forall|q: int| 0 <= q < n ==> (#[trigger] back[q]) < n && perm[back[q] as int] == q
}

/// The string whose letter on qubit `k` is the letter of `p` on qubit
/// `perm[k]`.
pub open spec fn relabel(p: PauliString, perm: Seq<usize>) -> PauliString {
    PauliString {
        sign: p.sign,
        x: Seq::new(perm.len(), |k: int| p.x[perm[k] as int]),
        z: Seq::new(perm.len(), |k: int| p.z[perm[k] as int]),
    }
}

/// A gate `g` with each of its qubits `q` replaced by `perm[q]`.
pub open spec fn map_gate(g: CliffordGate, perm: Seq<usize>) -> CliffordGate {
    match g {
        CliffordGate::CNOT(i, j) => CliffordGate::CNOT(perm[i as int], perm[j as int]),
        CliffordGate::CZ(i, j) => CliffordGate::CZ(perm[i as int], perm[j as int]),
        CliffordGate::H(i) => CliffordGate::H(perm[i as int]),
        CliffordGate::S(i) => CliffordGate::S(perm[i as int]),
        CliffordGate::Sd(i) => CliffordGate::Sd(perm[i as int]),
        CliffordGate::SqrtX(i) => CliffordGate::SqrtX(perm[i as int]),
        CliffordGate::SqrtXd(i) => CliffordGate::SqrtXd(perm[i as int]),
    }
}

/// The gates of `gates`, each with its qubits replaced through `perm`.
pub open spec fn map_gates(gates: Seq<CliffordGate>, perm: Seq<usize>) -> Seq<CliffordGate> {
    Seq::new(gates.len(), |k: int| map_gate(gates[k], perm))
}

/// Conjugation by a gate other than CZ and relabeling may be exchanged.
proof fn lemma_relabel_conj_plain(
    p: PauliString,
    g: CliffordGate,
    perm: Seq<usize>,
    back: Seq<usize>,
    n: nat,
)
    requires
        p.wf(n),
        g.fits(n),
        !(g is CZ),
        is_relabeling(perm, back, n),
    ensures
        map_gate(g, perm).fits(n),
        p.conj(map_gate(g, perm)).wf(n),
        relabel(p, perm).conj(g) == relabel(p.conj(map_gate(g, perm)), perm),
{
    let a = relabel(p, perm).conj(g);
    let b = relabel(p.conj(map_gate(g, perm)), perm);
    assert forall|q: int| g.touches(q) implies back[perm[q] as int] == q by {}
    assert forall|k: int| 0 <= k < n implies a.x[k] == b.x[k] && a.z[k] == b.z[k] by {
        assert(back[perm[k] as int] == k);
    }
    assert(a.x =~= b.x);
    assert(a.z =~= b.z);
}

/// Conjugation and relabeling may be exchanged: conjugating the relabeled
/// string gives what relabeling gives after conjugation on the qubits that
/// the relabeling names.
pub proof fn lemma_relabel_conj(
    p: PauliString,
    g: CliffordGate,
    perm: Seq<usize>,
    back: Seq<usize>,
    n: nat,
)
    requires
        p.wf(n),
        g.fits(n),
        is_relabeling(perm, back, n),
    ensures
        map_gate(g, perm).fits(n),
        relabel(p, perm).conj(g) == relabel(p.conj(map_gate(g, perm)), perm),
{
    match g {
        CliffordGate::CZ(i, j) => {
            assert(back[perm[i as int] as int] == i && back[perm[j as int] as int] == j);
            let h = CliffordGate::H(j);
            let c = CliffordGate::CNOT(i, j);
            lemma_relabel_conj_plain(p, h, perm, back, n);
            let after_h = p.conj(map_gate(h, perm));
            lemma_relabel_conj_plain(after_h, c, perm, back, n);
            let after_c = after_h.conj(map_gate(c, perm));
            lemma_relabel_conj_plain(after_c, h, perm, back, n);
        },
        _ => {
            lemma_relabel_conj_plain(p, g, perm, back, n);
        },
    }
}

/// Conjugation by a circuit and relabeling may be exchanged.
pub proof fn lemma_relabel_conj_all(
    p: PauliString,
    gates: Seq<CliffordGate>,
    perm: Seq<usize>,
    back: Seq<usize>,
    n: nat,
)
    requires
        p.wf(n),
        all_fit(gates, n),
        is_relabeling(perm, back, n),
    ensures
        all_fit(map_gates(gates, perm), n),
        p.conj_all(map_gates(gates, perm)).wf(n),
        relabel(p, perm).conj_all(gates) == relabel(p.conj_all(map_gates(gates, perm)), perm),
    decreases gates.len(),
{
    let mapped = map_gates(gates, perm);
    if gates.len() > 0 {
        let init = gates.drop_last();
        lemma_relabel_conj_all(p, init, perm, back, n);
        assert(mapped.drop_last() =~= map_gates(init, perm));
        assert(mapped.last() == map_gate(gates.last(), perm));
        assert(gates.last().fits(n));
        lemma_relabel_conj(p.conj_all(mapped.drop_last()), gates.last(), perm, back, n);
        assert forall|k: int| 0 <= k < mapped.len() implies (#[trigger] mapped[k]).fits(n) by {
            if k < mapped.len() - 1 {
                assert(map_gates(init, perm)[k].fits(n));
            }
        }
    } else {
        assert(mapped =~= Seq::<CliffordGate>::empty());
    }
}

/// A string with letters other than I on two qubits is not trivial.
pub proof fn lemma_two_letters_not_trivial(p: PauliString, k: nat, q1: int, q2: int)
    requires
        0 <= q2 < q1 < k,
        two_letters(p, q1, q2),
    ensures
        p.support_below(k) >= 2,
    decreases k,
{
    if q1 < k - 1 {
        lemma_two_letters_not_trivial(p, (k - 1) as nat, q1, q2);
    } else {
        lemma_letter_in_support(p, (k - 1) as nat, q2);
    }
}

/// A string with a letter other than I on a qubit has that qubit in its
/// support.
pub proof fn lemma_letter_in_support(p: PauliString, k: nat, q: int)
    requires
        0 <= q < k,
        !p.is_id(q),
    ensures
        p.support_below(k) >= 1,
    decreases k,
{
    if q < k - 1 {
        lemma_letter_in_support(p, (k - 1) as nat, q);
    }
}

/// A string is trivial exactly if the relabeled string is.
pub proof fn lemma_relabel_trivial(p: PauliString, perm: Seq<usize>, back: Seq<usize>, n: nat)
    requires
        p.wf(n),
        is_relabeling(perm, back, n),
    ensures
        relabel(p, perm).is_trivial() == p.is_trivial(),
{
    let r = relabel(p, perm);
    if !r.is_trivial() {
        lemma_two_in_support(r, n);
        let (k1, k2) = choose|k1: int, k2: int| 0 <= k2 < k1 < n && two_letters(r, k1, k2);
        let q1 = perm[k1] as int;
        let q2 = perm[k2] as int;
        assert(back[q1] == k1 && back[q2] == k2);
        if q2 < q1 {
            lemma_two_letters_not_trivial(p, n, q1, q2);
        } else {
            lemma_two_letters_not_trivial(p, n, q2, q1);
        }
    }
    if !p.is_trivial() {
        lemma_two_in_support(p, n);
        let (q1, q2) = choose|q1: int, q2: int| 0 <= q2 < q1 < n && two_letters(p, q1, q2);
        let k1 = back[q1] as int;
        let k2 = back[q2] as int;
        assert(perm[k1] == q1 && perm[k2] == q2);
        if k2 < k1 {
            lemma_two_letters_not_trivial(r, n, k1, k2);
        } else {
            lemma_two_letters_not_trivial(r, n, k2, k1);
        }
    }
}

/// A circuit that covers the relabeled operators covers the operators
/// themselves once its gates are written back through the relabeling.
pub proof fn lemma_relabel_covers(
    ops: Seq<PauliString>,
    gates: Seq<CliffordGate>,
    perm: Seq<usize>,
    back: Seq<usize>,
    n: nat,
)
    requires
        forall|i: int| 0 <= i < ops.len() ==> (#[trigger] ops[i]).wf(n),
        all_fit(gates, n),
        is_relabeling(perm, back, n),
        covers(ops.map_values(|p: PauliString| relabel(p, perm)), gates),
    ensures
        covers(ops, map_gates(gates, perm)),
        all_fit(map_gates(gates, perm), n),
{
    let shuffled = ops.map_values(|p: PauliString| relabel(p, perm));
    let mapped = map_gates(gates, perm);
    lemma_relabel_conj_all(PauliString::identity(n), gates, perm, back, n);
    assert forall|i: int| 0 <= i < ops.len() implies covered(#[trigger] ops[i], mapped) by {
        assert(covered(shuffled[i], gates));
        let k = choose|k: int|
            0 <= k <= gates.len() && #[trigger] shuffled[i].conj_all(gates.take(k)).is_trivial();
        let part = gates.take(k);
        assert(mapped.take(k) =~= map_gates(part, perm));
        lemma_relabel_conj_all(ops[i], part, perm, back, n);
        lemma_relabel_trivial(ops[i].conj_all(map_gates(part, perm)), perm, back, n);
    }
}

/// Exchanging two entries of a relabeling exchanges two letters of the
/// relabeled string.
pub proof fn lemma_relabel_swap(
    p: PauliString,
    perm: Seq<usize>,
    i: int,
    j: int,
)
    requires
        0 <= i < perm.len(),
        0 <= j < perm.len(),
    ensures
        relabel(p, perm).swap(i, j) == relabel(p, perm.update(i, perm[j]).update(j, perm[i])),
{
    let a = relabel(p, perm).swap(i, j);
    let b = relabel(p, perm.update(i, perm[j]).update(j, perm[i]));
    assert(a.x =~= b.x);
    assert(a.z =~= b.z);
}

/// Shuffles the qubits of the operators at random. Returns the relabeling:
/// the letter of each operator on qubit `k` is afterwards the letter that it
/// had on qubit `permutation[k]`.
pub fn permute_input(pset: &mut PauliSet) -> (permutation: Vec<usize>)
    requires
        old(pset).wf(),
    ensures
        final(pset).wf(),
        final(pset).n == old(pset).n,
        exists|back: Seq<usize>| is_relabeling(permutation@, back, old(pset).n as nat),
        final(pset)@ == (PauliSetView {
            ops: old(pset)@.ops.map_values(|p: PauliString| relabel(p, permutation@)),
            ..old(pset)@
        }),
{
    let n = pset.n;
    let ghost first = pset@;
    let mut permutation: Vec<usize> = Vec::new();
    let mut k: usize = 0;
    while k < n
        invariant
            k <= n,
            permutation@.len() == k,
            forall|j: int| 0 <= j < k ==> permutation@[j] == j,
        decreases n - k,
    {
        permutation.push(k);
        k += 1;
    }
    let ghost mut back: Seq<usize> = permutation@;
    proof {
        pset.lemma_view_wf();
        assert forall|i: int| 0 <= i < first.ops.len() implies #[trigger] relabel(
            first.ops[i],
            permutation@,
        ) == first.ops[i] by {
            assert(first.ops[i].wf(n as nat));
            assert(relabel(first.ops[i], permutation@).x =~= first.ops[i].x);
            assert(relabel(first.ops[i], permutation@).z =~= first.ops[i].z);
        }
        assert(pset@.ops =~= first.ops.map_values(|p: PauliString| relabel(p, permutation@)));
    }
    assert(is_relabeling(permutation@, back, n as nat));
    if n <= 1 {
        return permutation;
    }
    let mut round: usize = 0;
    while round < n
        invariant
            pset.wf(),
            pset.n == n,
            n > 1,
            round <= n,
            first == old(pset)@,
            is_relabeling(permutation@, back, n as nat),
            pset@ == (PauliSetView {
                ops: first.ops.map_values(|p: PauliString| relabel(p, permutation@)),
                ..first
            }),
        decreases n - round,
    {
        let mut turn: usize = 0;
        while turn < n
            invariant
                pset.wf(),
                pset.n == n,
                n > 1,
                turn <= n,
                first == old(pset)@,
                is_relabeling(permutation@, back, n as nat),
                pset@ == (PauliSetView {
                    ops: first.ops.map_values(|p: PauliString| relabel(p, permutation@)),
                    ..first
                }),
            decreases n - turn,
        {
            let i = random_between(0, n - 1);
            let j = random_between(i + 1, n);
            let ghost before = permutation@;
            let a = permutation[i];
            let b = permutation[j];
            permutation[i] = b;
            permutation[j] = a;
            pset.swap_qbits(i, j);
            proof {
                assert(permutation@ =~= before.update(i as int, before[j as int]).update(
                    j as int,
                    before[i as int],
                ));
                back = back.update(a as int, j).update(b as int, i);
                assert forall|k: int| 0 <= k < first.ops.len() implies #[trigger] pset@.ops[k]
                    == relabel(first.ops[k], permutation@) by {
                    lemma_relabel_swap(first.ops[k], before, i as int, j as int);
                }
                assert(pset@.ops =~= first.ops.map_values(
                    |p: PauliString| relabel(p, permutation@),
                ));
            }
            turn += 1;
        }
        round += 1;
    }
    permutation
}

/// Rewrites a circuit through a relabeling: each gate on a qubit `q` becomes
/// the same gate on the qubit `permutation[q]`.
pub fn permute_circuit(circuit: &CliffordCircuit, permutation: &Vec<usize>) -> (r:
    CliffordCircuit)
    requires
        all_fit(circuit@, permutation@.len()),
    ensures
        r.nqbits == circuit.nqbits,
        r@ == map_gates(circuit@, permutation@),
{
    let mut output = CliffordCircuit::new(circuit.nqbits);
    let mut k: usize = 0;
    while k < circuit.gates.len()
        invariant
            k <= circuit@.len(),
            all_fit(circuit@, permutation@.len()),
            output.nqbits == circuit.nqbits,
            output@ == map_gates(circuit@.take(k as int), permutation@),
        decreases circuit@.len() - k,
    {
        let gate = circuit.gates[k];
        assert(gate.fits(permutation@.len()));
        let mapped = match gate {
            CliffordGate::H(i) => CliffordGate::H(permutation[i]),
            CliffordGate::S(i) => CliffordGate::S(permutation[i]),
            CliffordGate::Sd(i) => CliffordGate::Sd(permutation[i]),
            CliffordGate::SqrtX(i) => CliffordGate::SqrtX(permutation[i]),
            CliffordGate::SqrtXd(i) => CliffordGate::SqrtXd(permutation[i]),
            CliffordGate::CNOT(a, b) => CliffordGate::CNOT(permutation[a], permutation[b]),
            CliffordGate::CZ(a, b) => CliffordGate::CZ(permutation[a], permutation[b]),
        };
        output.gates.push(mapped);
        k += 1;
        assert(output@ =~= map_gates(circuit@.take(k as int), permutation@));
    }
    assert(circuit@.take(k as int) =~= circuit@);
    output
}

/// A relabeling keeps the number of gates that count.
pub proof fn lemma_relabel_count(gates: Seq<CliffordGate>, perm: Seq<usize>, with_cz: bool)
    ensures
        count_gates(map_gates(gates, perm), with_cz) == count_gates(gates, with_cz),
    decreases gates.len(),
{
    let mapped = map_gates(gates, perm);
    if gates.len() > 0 {
        lemma_relabel_count(gates.drop_last(), perm, with_cz);
        assert(mapped.drop_last() =~= map_gates(gates.drop_last(), perm));
    }
}

/// A relabeling takes the layer reached on a qubit along with the qubit.
pub proof fn lemma_relabel_qbit_depth(
    gates: Seq<CliffordGate>,
    perm: Seq<usize>,
    back: Seq<usize>,
    n: nat,
    with_cz: bool,
    q: int,
)
    requires
        all_fit(gates, n),
        is_relabeling(perm, back, n),
        0 <= q < n,
    ensures
        qbit_depth(map_gates(gates, perm), with_cz, perm[q] as int) == qbit_depth(
            gates,
            with_cz,
            q,
        ),
    decreases gates.len(),
{
    let mapped = map_gates(gates, perm);
    if gates.len() > 0 {
        let init = gates.drop_last();
        let g = gates.last();
        assert(mapped.drop_last() =~= map_gates(init, perm));
        assert(g.fits(n));
        assert(back[perm[q] as int] == q);
        assert forall|t: int| g.touches(t) implies back[perm[t] as int] == t by {}
        assert(mapped.last().touches(perm[q] as int) == g.touches(q));
        lemma_relabel_qbit_depth(init, perm, back, n, with_cz, q);
        if g.counts(with_cz) && g.touches(q) {
            lemma_relabel_qbit_depth(init, perm, back, n, with_cz, g.spec_qbits()[0] as int);
            lemma_relabel_qbit_depth(init, perm, back, n, with_cz, g.spec_qbits()[1] as int);
        }
    }
}

/// A relabeling keeps the depth of a circuit.
pub proof fn lemma_relabel_depth(
    gates: Seq<CliffordGate>,
    perm: Seq<usize>,
    back: Seq<usize>,
    n: nat,
    with_cz: bool,
)
    requires
        all_fit(gates, n),
        is_relabeling(perm, back, n),
    ensures
        depth_below(map_gates(gates, perm), with_cz, n) == depth_below(gates, with_cz, n),
{
    let mapped = map_gates(gates, perm);
    lemma_depth_below_is_max(gates, with_cz, n);
    lemma_depth_below_is_max(mapped, with_cz, n);
    if n > 0 {
        let q = choose|q: int|
            0 <= q < n && #[trigger] qbit_depth(gates, with_cz, q) == depth_below(
                gates,
                with_cz,
                n,
            );
        lemma_relabel_qbit_depth(gates, perm, back, n, with_cz, q);
        assert(qbit_depth(mapped, with_cz, perm[q] as int) <= depth_below(mapped, with_cz, n));
        let t = choose|t: int|
            0 <= t < n && #[trigger] qbit_depth(mapped, with_cz, t) == depth_below(
                mapped,
                with_cz,
                n,
            );
        lemma_relabel_qbit_depth(gates, perm, back, n, with_cz, back[t] as int);
        assert(perm[back[t] as int] == t);
        assert(qbit_depth(gates, with_cz, back[t] as int) <= depth_below(gates, with_cz, n));
    }
}

} // verus!
