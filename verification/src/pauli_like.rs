//! What can be conjugated by Clifford gates.

use crate::clifford_circuit::{all_fit, CliffordCircuit, CliffordGate};
use crate::pauli::Pauli;
use crate::pauli_set::PauliSet;
use crate::symplectic::PauliString;
use vstd::prelude::*;

verus! {

/// The strings of `strings`, each conjugated by `g`.
pub open spec fn conj_each(strings: Seq<PauliString>, g: CliffordGate) -> Seq<PauliString> {
    strings.map_values(|p: PauliString| p.conj(g))
}

/// The strings of `strings`, each conjugated by the gates of `gates`, in
/// order.
pub open spec fn conj_each_all(strings: Seq<PauliString>, gates: Seq<CliffordGate>) -> Seq<
    PauliString,
> {
    strings.map_values(|p: PauliString| p.conj_all(gates))
}

/// This trait is implemented by the structures that can be conjugated by a
/// Clifford gate or circuit: they hold Pauli strings on some number of
/// qubits, and a gate conjugates each of the strings.
pub trait PauliLike: Sized {
    /// The Pauli strings that the structure holds.
    spec fn strings(&self) -> Seq<PauliString>;

    /// The number of qubits of the strings.
    spec fn nqbits(&self) -> nat;

    /// The structure is well formed.
    spec fn sound(&self) -> bool;

    /// Conjugates the structure via a H gate.
    fn h(&mut self, i: usize)
        requires
            old(self).sound(),
            i < old(self).nqbits(),
        ensures
            final(self).sound(),
            final(self).nqbits() == old(self).nqbits(),
            final(self).strings() == conj_each(old(self).strings(), CliffordGate::H(i)),
    ;

    /// Conjugates the structure via a S gate.
    fn s(&mut self, i: usize)
        requires
            old(self).sound(),
            i < old(self).nqbits(),
        ensures
            final(self).sound(),
            final(self).nqbits() == old(self).nqbits(),
            final(self).strings() == conj_each(old(self).strings(), CliffordGate::S(i)),
    ;

    /// Conjugates the structure via a S dagger gate.
    fn sd(&mut self, i: usize)
        requires
            old(self).sound(),
            i < old(self).nqbits(),
        ensures
            final(self).sound(),
            final(self).nqbits() == old(self).nqbits(),
            final(self).strings() == conj_each(old(self).strings(), CliffordGate::Sd(i)),
    ;

    /// Conjugates the structure via a SQRT_X gate.
    fn sqrt_x(&mut self, i: usize)
        requires
            old(self).sound(),
            i < old(self).nqbits(),
        ensures
            final(self).sound(),
            final(self).nqbits() == old(self).nqbits(),
            final(self).strings() == conj_each(old(self).strings(), CliffordGate::SqrtX(i)),
    ;

    /// Conjugates the structure via a SQRT_X dagger gate.
    fn sqrt_xd(&mut self, i: usize)
        requires
            old(self).sound(),
            i < old(self).nqbits(),
        ensures
            final(self).sound(),
            final(self).nqbits() == old(self).nqbits(),
            final(self).strings() == conj_each(old(self).strings(), CliffordGate::SqrtXd(i)),
    ;

    /// Conjugates the structure via a CNOT gate.
    fn cnot(&mut self, i: usize, j: usize)
        requires
            old(self).sound(),
            i < old(self).nqbits(),
            j < old(self).nqbits(),
            i != j,
        ensures
            final(self).sound(),
            final(self).nqbits() == old(self).nqbits(),
            final(self).strings() == conj_each(old(self).strings(), CliffordGate::CNOT(i, j)),
    ;

    /// Conjugates the structure via a CZ gate.
    fn cz(&mut self, i: usize, j: usize)
        requires
            old(self).sound(),
            i < old(self).nqbits(),
            j < old(self).nqbits(),
            i != j,
        ensures
            final(self).sound(),
            final(self).nqbits() == old(self).nqbits(),
            final(self).strings() == conj_each(old(self).strings(), CliffordGate::CZ(i, j)),
    {
        self.h(j);
        self.cnot(i, j);
        self.h(j);
        assert(self.strings() =~= conj_each(old(self).strings(), CliffordGate::CZ(i, j)));
    }

    /// Conjugates the structure via a gate.
    fn conjugate_with_gate(&mut self, gate: &CliffordGate)
        requires
            old(self).sound(),
            gate.fits(old(self).nqbits()),
        ensures
            final(self).sound(),
            final(self).nqbits() == old(self).nqbits(),
            final(self).strings() == conj_each(old(self).strings(), *gate),
    {
        match gate {
            CliffordGate::CNOT(i, j) => self.cnot(*i, *j),
            CliffordGate::CZ(i, j) => self.cz(*i, *j),
            CliffordGate::H(i) => self.h(*i),
            CliffordGate::S(i) => self.s(*i),
            CliffordGate::Sd(i) => self.sd(*i),
            CliffordGate::SqrtX(i) => self.sqrt_x(*i),
            CliffordGate::SqrtXd(i) => self.sqrt_xd(*i),
        }
    }

    /// Conjugates the structure via a circuit.
    fn conjugate_with_circuit(&mut self, circuit: &CliffordCircuit)
        requires
            old(self).sound(),
            all_fit(circuit@, old(self).nqbits()),
        ensures
            final(self).sound(),
            final(self).nqbits() == old(self).nqbits(),
            final(self).strings() == conj_each_all(old(self).strings(), circuit@),
    {
        let mut k: usize = 0;
        assert(self.strings() =~= conj_each_all(old(self).strings(), circuit@.take(0)));
        while k < circuit.gates.len()
            invariant
                k <= circuit@.len(),
                self.sound(),
                self.nqbits() == old(self).nqbits(),
                all_fit(circuit@, self.nqbits()),
                self.strings() == conj_each_all(old(self).strings(), circuit@.take(k as int)),
            decreases circuit@.len() - k,
        {
            self.conjugate_with_gate(&circuit.gates[k]);
            proof {
                let next = circuit@.take(k + 1);
                assert(next.drop_last() == circuit@.take(k as int));
                assert(next.last() == circuit@[k as int]);
                assert(self.strings() =~= conj_each_all(old(self).strings(), next));
            }
            k += 1;
        }
        assert(circuit@.take(k as int) == circuit@);
    }
}

impl PauliLike for PauliSet {
    open spec fn strings(&self) -> Seq<PauliString> {
        self@.ops
    }

    open spec fn nqbits(&self) -> nat {
        self.n as nat
    }

    open spec fn sound(&self) -> bool {
        self.wf()
    }

    fn h(&mut self, i: usize) {
        PauliSet::h(self, i);
    }

    fn s(&mut self, i: usize) {
        PauliSet::s(self, i);
    }

    fn sd(&mut self, i: usize) {
        PauliSet::sd(self, i);
    }

    fn sqrt_x(&mut self, i: usize) {
        PauliSet::sqrt_x(self, i);
    }

    fn sqrt_xd(&mut self, i: usize) {
        PauliSet::sqrt_xd(self, i);
    }

    fn cnot(&mut self, i: usize, j: usize) {
        PauliSet::cnot(self, i, j);
    }
}

impl Pauli {
    /// Writes the bits of qubit `i` and flips the sign if `flip` is set.
    fn write(&mut self, i: usize, x: bool, z: bool, flip: bool)
        requires
            old(self).wf(),
            i < old(self).n,
        ensures
            final(self).wf(),
            final(self).n == old(self).n,
            final(self)@ == (PauliString {
                sign: old(self)@.sign != flip,
                x: old(self)@.x.update(i as int, x),
                z: old(self)@.z.update(i as int, z),
            }),
    {
        let n = self.n;
        let _bits = self.data.len();
        self.data[i] = x;
        self.data[i + n] = z;
        if flip {
            self.phase = (self.phase % 4 + 2) % 4;
        }
        assert(self@.x =~= old(self)@.x.update(i as int, x));
        assert(self@.z =~= old(self)@.z.update(i as int, z));
    }
}

impl PauliLike for Pauli {
    open spec fn strings(&self) -> Seq<PauliString> {
        seq![self@]
    }

    open spec fn nqbits(&self) -> nat {
        self.n as nat
    }

    open spec fn sound(&self) -> bool {
        self.wf()
    }

    fn h(&mut self, i: usize) {
        let _bits = self.data.len();
        let x = self.data[i];
        let z = self.data[i + self.n];
        self.write(i, z, x, x && z);
        assert(self.strings() =~= conj_each(old(self).strings(), CliffordGate::H(i)));
    }

    fn s(&mut self, i: usize) {
        let _bits = self.data.len();
        let x = self.data[i];
        let z = self.data[i + self.n];
        self.write(i, x, z != x, x && z);
        assert(self@.x =~= old(self)@.x);
        assert(self.strings() =~= conj_each(old(self).strings(), CliffordGate::S(i)));
    }

    fn sd(&mut self, i: usize) {
        let _bits = self.data.len();
        let x = self.data[i];
        let z = self.data[i + self.n];
        self.write(i, x, z != x, x && !z);
        assert(self@.x =~= old(self)@.x);
        assert(self.strings() =~= conj_each(old(self).strings(), CliffordGate::Sd(i)));
    }

    fn sqrt_x(&mut self, i: usize) {
        let _bits = self.data.len();
        let x = self.data[i];
        let z = self.data[i + self.n];
        self.write(i, x != z, z, !x && z);
        assert(self@.z =~= old(self)@.z);
        assert(self.strings() =~= conj_each(old(self).strings(), CliffordGate::SqrtX(i)));
    }

    fn sqrt_xd(&mut self, i: usize) {
        let _bits = self.data.len();
        let x = self.data[i];
        let z = self.data[i + self.n];
        self.write(i, x != z, z, x && z);
        assert(self@.z =~= old(self)@.z);
        assert(self.strings() =~= conj_each(old(self).strings(), CliffordGate::SqrtXd(i)));
    }

    fn cnot(&mut self, i: usize, j: usize) {
        let _bits = self.data.len();
        let n = self.n;
        let xi = self.data[i];
        let zi = self.data[i + n];
        let xj = self.data[j];
        let zj = self.data[j + n];
        self.write(i, xi, zi != zj, xi && zj && (xj == zi));
        self.write(j, xj != xi, zj, false);
        let ghost goal = old(self)@.cnot(i as int, j as int);
        assert(self@.x =~= goal.x);
        assert(self@.z =~= goal.z);
        assert(self.strings() =~= conj_each(old(self).strings(), CliffordGate::CNOT(i, j)));
    }
}

} // verus!
