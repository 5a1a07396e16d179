//! The library of local moves: short gate templates on two qubit slots.
//!
//! A chunk holds up to three gates written over the slots 0 and 1: a gate
//! before the entangling gate on each slot, and a CNOT between the two slots
//! in one of the two directions. It is bound to two qubits when it is used.

use crate::clifford_circuit::{all_fit, spec_dagger_gates, CliffordCircuit, CliffordGate};
use crate::pauli_set::PauliSet;
use crate::symplectic::{
    lemma_conj_all_concat, lemma_conj_all_single, lemma_conj_all_wf, lemma_conj_dagger,
    PauliString,
};
use vstd::prelude::*;

verus! {

/// A template of at most three gates over the slots 0 and 1.
pub type Chunk = [Option<CliffordGate>; 3];

/// The number of chunks in the library.
pub const NCHUNKS: usize = 18;

/// What stands before the CNOT on `slot`: none, S or H as `kind` is
/// 0, 1 or more.
pub open spec fn spec_prep(kind: nat, slot: usize) -> Option<CliffordGate> {
    if kind == 0 {
        None
    } else if kind == 1 {
        Some(CliffordGate::S(slot))
    } else {
        Some(CliffordGate::H(slot))
    }
}

/// Chunk number `index` of the library. The chunks run through the three
/// choices on slot 0, for each of them through the three choices on slot 1,
/// and for each of those through the two directions of the CNOT.
pub open spec fn spec_chunk(index: nat) -> Seq<Option<CliffordGate>> {
    seq![
        spec_prep(index / 6, 0),
        spec_prep((index / 2) % 3, 1),
        Some(
            if index % 2 == 0 {
                CliffordGate::CNOT(0, 1)
            } else {
                CliffordGate::CNOT(1, 0)
            },
        ),
    ]
}

/// A gate `g` of a chunk, bound to the qubits `q1` for slot 0 and `q2` for
/// the other slot. A chunk holds no CZ: one that is found is left out.
pub open spec fn bind_gate(g: CliffordGate, q1: usize, q2: usize) -> Option<CliffordGate> {
    match g {
        CliffordGate::S(i) => Some(CliffordGate::S(if i == 0 { q1 } else { q2 })),
        CliffordGate::Sd(i) => Some(CliffordGate::Sd(if i == 0 { q1 } else { q2 })),
        CliffordGate::SqrtX(i) => Some(CliffordGate::SqrtX(if i == 0 { q1 } else { q2 })),
        CliffordGate::SqrtXd(i) => Some(CliffordGate::SqrtXd(if i == 0 { q1 } else { q2 })),
        CliffordGate::H(i) => Some(CliffordGate::H(if i == 0 { q1 } else { q2 })),
        CliffordGate::CNOT(i, _) => Some(
            if i == 0 {
                CliffordGate::CNOT(q1, q2)
            } else {
                CliffordGate::CNOT(q2, q1)
            },
        ),
        CliffordGate::CZ(_, _) => None,
    }
}

/// The gates that an entry of a chunk gives on the qubits `q1` and `q2`.
pub open spec fn bind_entry(entry: Option<CliffordGate>, q1: usize, q2: usize) -> Seq<
    CliffordGate,
> {
    match entry {
        Some(g) => match bind_gate(g, q1, q2) {
            Some(bound) => seq![bound],
            None => Seq::empty(),
        },
        None => Seq::empty(),
    }
}

/// The gates of a chunk on the qubits `q1` and `q2`, in order.
pub open spec fn chunk_gates(chunk: Seq<Option<CliffordGate>>, q1: usize, q2: usize) -> Seq<
    CliffordGate,
> {
    bind_entry(chunk[0], q1, q2) + bind_entry(chunk[1], q1, q2) + bind_entry(chunk[2], q1, q2)
}

/// Every chunk of the library ends in a CNOT between its two qubits, and its
/// gates fit whenever its two qubits are different and in range.
pub proof fn lemma_library_chunk(index: nat, q1: usize, q2: usize, n: nat)
    requires
        index < 18,
        q1 < n,
        q2 < n,
        q1 != q2,
    ensures
        all_fit(chunk_gates(spec_chunk(index), q1, q2), n),
        1 <= chunk_gates(spec_chunk(index), q1, q2).len() <= 3,
        chunk_gates(spec_chunk(index), q1, q2).last() == (if index % 2 == 0 {
            CliffordGate::CNOT(q1, q2)
        } else {
            CliffordGate::CNOT(q2, q1)
        }),
        forall|k: int|
            0 <= k < chunk_gates(spec_chunk(index), q1, q2).len() ==> forall|q: int|
                (#[trigger] chunk_gates(spec_chunk(index), q1, q2)[k]).touches(q) ==> q == q1 || q
                    == q2,
{
}

/// Returns what stands before the CNOT on `slot`.
fn prep(kind: usize, slot: usize) -> (r: Option<CliffordGate>)
    ensures
        r == spec_prep(kind as nat, slot),
{
    if kind == 0 {
        None
    } else if kind == 1 {
        Some(CliffordGate::S(slot))
    } else {
        Some(CliffordGate::H(slot))
    }
}

/// Returns chunk number `index` of the library.
pub fn chunk_at(index: usize) -> (c: Chunk)
    requires
        index < NCHUNKS,
    ensures
        c@ == spec_chunk(index as nat),
{
    let last = if index % 2 == 0 {
        CliffordGate::CNOT(0, 1)
    } else {
        CliffordGate::CNOT(1, 0)
    };
    let c = [prep(index / 6, 0), prep((index / 2) % 3, 1), Some(last)];
    assert(c@ =~= spec_chunk(index as nat));
    c
}

/// Returns the library: all eighteen chunks, in order.
pub fn all_chunks() -> (r: Vec<Chunk>)
    ensures
        r@.len() == NCHUNKS,
        forall|k: int| 0 <= k < NCHUNKS ==> (#[trigger] r@[k])@ == spec_chunk(k as nat),
{
    let mut out: Vec<Chunk> = Vec::new();
    let mut k: usize = 0;
    while k < NCHUNKS
        invariant
            k <= NCHUNKS,
            out@.len() == k,
            forall|j: int| 0 <= j < k ==> (#[trigger] out@[j])@ == spec_chunk(j as nat),
        decreases NCHUNKS - k,
    {
        out.push(chunk_at(k));
        k += 1;
    }
    out
}

/// Binds a gate of a chunk to the qubits `qbit1` and `qbit2`.
fn bound_gate(gate: &CliffordGate, qbit1: usize, qbit2: usize) -> (r: Option<CliffordGate>)
    ensures
        r == bind_gate(*gate, qbit1, qbit2),
{
    match gate {
        CliffordGate::S(i) => Some(CliffordGate::S(if *i == 0 { qbit1 } else { qbit2 })),
        CliffordGate::Sd(i) => Some(CliffordGate::Sd(if *i == 0 { qbit1 } else { qbit2 })),
        CliffordGate::SqrtX(i) => Some(CliffordGate::SqrtX(if *i == 0 { qbit1 } else { qbit2 })),
        CliffordGate::SqrtXd(i) => Some(
            CliffordGate::SqrtXd(if *i == 0 { qbit1 } else { qbit2 }),
        ),
        CliffordGate::H(i) => Some(CliffordGate::H(if *i == 0 { qbit1 } else { qbit2 })),
        CliffordGate::CNOT(i, _) => Some(
            if *i == 0 {
                CliffordGate::CNOT(qbit1, qbit2)
            } else {
                CliffordGate::CNOT(qbit2, qbit1)
            },
        ),
        CliffordGate::CZ(_, _) => None,
    }
}

/// Returns the circuit on `nqbits` qubits that holds the gates of `chunk` on
/// the qubits `qbit1` and `qbit2`.
pub fn chunk_to_circuit(chunk: &Chunk, qbit1: usize, qbit2: usize, nqbits: usize) -> (r:
    CliffordCircuit)
    ensures
        r.nqbits == nqbits,
        r@ == chunk_gates(chunk@, qbit1, qbit2),
{
    let mut circuit_piece = CliffordCircuit::new(nqbits);
    let mut k: usize = 0;
    while k < 3
        invariant
            k <= 3,
            circuit_piece.nqbits == nqbits,
            circuit_piece@ == (if k == 0 {
                Seq::<CliffordGate>::empty()
            } else if k == 1 {
                bind_entry(chunk@[0], qbit1, qbit2)
            } else if k == 2 {
                bind_entry(chunk@[0], qbit1, qbit2) + bind_entry(chunk@[1], qbit1, qbit2)
            } else {
                chunk_gates(chunk@, qbit1, qbit2)
            }),
        decreases 3 - k,
    {
        let ghost before = circuit_piece@;
        if let Some(gate) = &chunk[k] {
            if let Some(bound) = bound_gate(gate, qbit1, qbit2) {
                circuit_piece.gates.push(bound);
            }
        }
        assert(circuit_piece@ =~= before + bind_entry(chunk@[k as int], qbit1, qbit2));
        k += 1;
    }
    circuit_piece
}

/// Conjugation by a circuit and then by its inverse gives the string back.
pub proof fn lemma_conj_all_dagger(p: PauliString, gates: Seq<CliffordGate>, n: nat)
    requires
        p.wf(n),
        all_fit(gates, n),
    ensures
        all_fit(spec_dagger_gates(gates), n),
        p.conj_all(gates).conj_all(spec_dagger_gates(gates)) == p,
    decreases gates.len(),
{
    let back = spec_dagger_gates(gates);
    assert forall|k: int| 0 <= k < back.len() implies (#[trigger] back[k]).fits(n) by {
        assert(gates[gates.len() - 1 - k].fits(n));
    }
    if gates.len() == 0 {
        assert(back =~= Seq::empty());
    } else {
        let init = gates.drop_last();
        let g = gates.last();
        let mid = p.conj_all(init);
        lemma_conj_all_wf(p, init, n);
        assert(g.fits(n));
        // back = [g†] + dagger(init)
        assert(back =~= seq![g.spec_dagger()] + spec_dagger_gates(init));
        lemma_conj_all_concat(mid.conj(g), seq![g.spec_dagger()], spec_dagger_gates(init));
        lemma_conj_all_single(mid.conj(g), g.spec_dagger());
        lemma_conj_dagger(mid, g, n);
        lemma_conj_all_dagger(p, init, n);
    }
}

/// Conjugates the operators of `bucket` by the gates of `chunk` on the qubits
/// `qbit1` and `qbit2`; with `reverse`, by the inverse of those gates in
/// reverse order, which undoes the conjugation.
pub fn conjugate_with_chunk(
    bucket: &mut PauliSet,
    chunk: &Chunk,
    qbit1: usize,
    qbit2: usize,
    reverse: bool,
)
    requires
        old(bucket).wf(),
        all_fit(chunk_gates(chunk@, qbit1, qbit2), old(bucket).n as nat),
    ensures
        final(bucket).wf(),
        final(bucket).n == old(bucket).n,
        !reverse ==> final(bucket)@ == old(bucket)@.conj_all(chunk_gates(chunk@, qbit1, qbit2)),
        reverse ==> final(bucket)@ == old(bucket)@.conj_all(
            spec_dagger_gates(chunk_gates(chunk@, qbit1, qbit2)),
        ),
{
    let piece = chunk_to_circuit(chunk, qbit1, qbit2, bucket.n);
    proof {
        bucket.lemma_view_wf();
    }
    if reverse {
        let back = piece.dagger();
        proof {
            assert forall|k: int| 0 <= k < back@.len() implies (#[trigger] back@[k]).fits(
                bucket.n as nat,
            ) by {
                assert(piece@[piece@.len() - 1 - k].fits(bucket.n as nat));
            }
        }
        bucket.conjugate_with_circuit(&back);
    } else {
        bucket.conjugate_with_circuit(&piece);
    }
    proof {
        bucket.lemma_view_wf();
    }
}

} // verus!
