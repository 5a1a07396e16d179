//! A single Pauli operator held as a vector of bits.

use crate::symplectic::PauliString;
use vstd::prelude::*;

verus! {

/// A Pauli operator on `n` qubits: the X bits of the qubits, then their Z
/// bits, and a phase counted in quarter turns.
pub struct Pauli {
    pub n: usize,
    pub data: Vec<bool>,
    pub phase: u8,
}

impl View for Pauli {
    type V = PauliString;

    /// The operator as a signed string; the sign is set for a phase of two
    /// or three quarter turns, counted modulo four.
    open spec fn view(&self) -> PauliString {
        PauliString::from_bits(self.data@, self.phase % 4 >= 2, self.n as nat)
    }
}

impl Pauli {
    /// The bit vector holds the X and the Z bits of all `n` qubits.
    pub open spec fn wf(&self) -> bool {
        2 * self.n <= self.data@.len()
    }

    /// The operator whose bits are all set, with phase 0.
    pub fn new(n: usize) -> (r: Self)
        requires
            2 * n <= usize::MAX,
        ensures
            r.wf(),
            r.n == n,
            r.phase == 0,
            r.data@ == Seq::new((2 * n) as nat, |k: int| true),
    {
        let mut data: Vec<bool> = Vec::new();
        let mut k: usize = 0;
        while k < 2 * n
            invariant
                2 * n <= usize::MAX,
                k <= 2 * n,
                data@.len() == k,
                forall|j: int| 0 <= j < k ==> data@[j],
            decreases 2 * n - k,
        {
            data.push(true);
            k += 1;
        }
        assert(data@ =~= Seq::new((2 * n) as nat, |k: int| true));
        Pauli { n, data, phase: 0 }
    }

    /// The operator with the given bits, on half as many qubits as there are
    /// bits.
    pub fn from_vec_bool(data: Vec<bool>, phase: u8) -> (r: Self)
        ensures
            r.wf(),
            r.n == data@.len() / 2,
            r.data@ == data@,
            r.phase == phase,
    {
        Pauli { n: data.len() / 2, data, phase }
    }

    /// Tells whether the two operators commute.
    pub fn commutes(&self, other: &Pauli) -> (r: bool)
        requires
            self.wf(),
            other.wf(),
            self.n == other.n,
        ensures
            r == self@.commutes(other@),
    {
        let n = self.n;
        let bits = self.data.len();
        assert(2 * n <= bits);
        let mut odd = false;
        let mut k: usize = 0;
        while k < n
            invariant
                self.wf(),
                other.wf(),
                n == self.n,
                n == other.n,
                2 * n <= usize::MAX,
                k <= n,
                odd == self@.product_below(other@, k as nat),
            decreases n - k,
        {
            let first = self.data[k] && other.data[k + n];
            let second = self.data[k + n] && other.data[k];
            if first != second {
                odd = !odd;
            }
            k += 1;
        }
        !odd
    }
}

} // verus!
