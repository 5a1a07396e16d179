//! Clifford gates and circuits, with their entangling cost.

use crate::random::random_between;
use vstd::prelude::*;

verus! {

/// An elementary Clifford gate together with the qubits it acts on.
#[derive(Debug, Clone, Copy, PartialEq, Eq, Structural)]
pub enum CliffordGate {
    CNOT(usize, usize),
    CZ(usize, usize),
    H(usize),
    S(usize),
    Sd(usize),
    SqrtX(usize),
    SqrtXd(usize),
}

impl CliffordGate {
    /// This gate acts on qubits below `n`, and a two-qubit gate acts on two
    /// different qubits.
    pub open spec fn fits(self, n: nat) -> bool {
        match self {
            CliffordGate::CNOT(i, j) => i < n && j < n && i != j,
            CliffordGate::CZ(i, j) => i < n && j < n && i != j,
            CliffordGate::H(i) => i < n,
            CliffordGate::S(i) => i < n,
            CliffordGate::Sd(i) => i < n,
            CliffordGate::SqrtX(i) => i < n,
            CliffordGate::SqrtXd(i) => i < n,
        }
    }

    /// This gate is a two-qubit gate.
    pub open spec fn is_entangling(self) -> bool {
        self is CNOT || self is CZ
    }

    /// This gate counts towards the cost: a CNOT always, a CZ if `with_cz`.
    pub open spec fn counts(self, with_cz: bool) -> bool {
        self is CNOT || (with_cz && self is CZ)
    }

    /// This gate acts on qubit `q`.
    pub open spec fn touches(self, q: int) -> bool {
        match self {
            CliffordGate::CNOT(i, j) => q == i || q == j,
            CliffordGate::CZ(i, j) => q == i || q == j,
            CliffordGate::H(i) => q == i,
            CliffordGate::S(i) => q == i,
            CliffordGate::Sd(i) => q == i,
            CliffordGate::SqrtX(i) => q == i,
            CliffordGate::SqrtXd(i) => q == i,
        }
    }

    /// The inverse gate.
    pub open spec fn spec_dagger(self) -> CliffordGate {
        match self {
            CliffordGate::S(i) => CliffordGate::Sd(i),
            CliffordGate::Sd(i) => CliffordGate::S(i),
            CliffordGate::SqrtX(i) => CliffordGate::SqrtXd(i),
            CliffordGate::SqrtXd(i) => CliffordGate::SqrtX(i),
            _ => self,
        }
    }

    /// The name under which this gate is reported.
    pub open spec fn spec_name(self) -> Seq<char> {
        match self {
            CliffordGate::CNOT(_, _) => seq!['C', 'N', 'O', 'T'],
            CliffordGate::CZ(_, _) => seq!['C', 'Z'],
            CliffordGate::H(_) => seq!['H'],
            CliffordGate::S(_) => seq!['S'],
            CliffordGate::Sd(_) => seq!['S', 'd'],
            CliffordGate::SqrtX(_) => seq!['S', 'q', 'r', 't', 'X'],
            CliffordGate::SqrtXd(_) => seq!['S', 'q', 'r', 't', 'X', 'd'],
        }
    }

    /// The qubits of this gate, in the order in which it names them.
    pub open spec fn spec_qbits(self) -> Seq<usize> {
        match self {
            CliffordGate::CNOT(i, j) => seq![i, j],
            CliffordGate::CZ(i, j) => seq![i, j],
            CliffordGate::H(i) => seq![i],
            CliffordGate::S(i) => seq![i],
            CliffordGate::Sd(i) => seq![i],
            CliffordGate::SqrtX(i) => seq![i],
            CliffordGate::SqrtXd(i) => seq![i],
        }
    }

    /// Tells whether this gate can be applied to `n` qubits.
    pub fn fits_in(&self, n: usize) -> (r: bool)
        ensures
            r == self.fits(n as nat),
    {
        match self {
            CliffordGate::CNOT(i, j) => *i < n && *j < n && *i != *j,
            CliffordGate::CZ(i, j) => *i < n && *j < n && *i != *j,
            CliffordGate::H(i) => *i < n,
            CliffordGate::S(i) => *i < n,
            CliffordGate::Sd(i) => *i < n,
            CliffordGate::SqrtX(i) => *i < n,
            CliffordGate::SqrtXd(i) => *i < n,
        }
    }

    /// Returns the inverse gate.
    pub fn dagger(&self) -> (r: Self)
        ensures
            r == self.spec_dagger(),
    {
        match self {
            Self::S(i) => Self::Sd(*i),
            Self::SqrtX(i) => Self::SqrtXd(*i),
            Self::Sd(i) => Self::S(*i),
            Self::SqrtXd(i) => Self::SqrtX(*i),
            _ => *self,
        }
    }

    /// Returns this gate as its name and the list of its qubits.
    pub fn to_vec(&self) -> (r: (String, Vec<usize>))
        ensures
            r.0@ == self.spec_name(),
            r.1@ == self.spec_qbits(),
    {
        proof {
            reveal_strlit("CNOT");
            reveal_strlit("CZ");
            reveal_strlit("H");
            reveal_strlit("S");
            reveal_strlit("Sd");
            reveal_strlit("SqrtX");
            reveal_strlit("SqrtXd");
        }
        let r = match self {
            CliffordGate::CNOT(i, j) => ("CNOT".to_owned(), vec![*i, *j]),
            CliffordGate::CZ(i, j) => ("CZ".to_owned(), vec![*i, *j]),
            CliffordGate::H(i) => ("H".to_owned(), vec![*i]),
            CliffordGate::S(i) => ("S".to_owned(), vec![*i]),
            CliffordGate::Sd(i) => ("Sd".to_owned(), vec![*i]),
            CliffordGate::SqrtX(i) => ("SqrtX".to_owned(), vec![*i]),
            CliffordGate::SqrtXd(i) => ("SqrtXd".to_owned(), vec![*i]),
        };
        assert(r.0@ =~= self.spec_name());
        assert(r.1@ =~= self.spec_qbits());
        r
    }
}

/// Every gate of `gates` fits `n` qubits.
pub open spec fn all_fit(gates: Seq<CliffordGate>, n: nat) -> bool {
    forall|k: int| 0 <= k < gates.len() ==> (#[trigger] gates[k]).fits(n)
}

/// The number of gates of `gates` that count.
pub open spec fn count_gates(gates: Seq<CliffordGate>, with_cz: bool) -> nat
    decreases gates.len(),
{
    if gates.len() == 0 {
        0
    } else {
        count_gates(gates.drop_last(), with_cz) + if gates.last().counts(with_cz) {
            1nat
        } else {
            0nat
        }
    }
}

/// The number of CNOT gates.
pub open spec fn spec_cnot_count(gates: Seq<CliffordGate>) -> nat {
    count_gates(gates, false)
}

/// The number of two-qubit gates.
pub open spec fn spec_entangling_count(gates: Seq<CliffordGate>) -> nat {
    count_gates(gates, true)
}

/// The layer in which the last gate among `gates` that counts and acts on
/// qubit `q` lies; 0 if there is none. Such a gate lies one layer
/// after the later of the layers reached so far on its two qubits.
pub open spec fn qbit_depth(
    gates: Seq<CliffordGate>,
    with_cz: bool,
    q: int,
) -> nat
    decreases gates.len(),
{
    if gates.len() == 0 {
        0
    } else {
        let before = gates.drop_last();
        let g = gates.last();
        if g.counts(with_cz) && g.touches(q) {
            let a = qbit_depth(before, with_cz, g.spec_qbits()[0] as int);
            let b = qbit_depth(before, with_cz, g.spec_qbits()[1] as int);
            if a >= b {
                a + 1
            } else {
                b + 1
            }
        } else {
            qbit_depth(before, with_cz, q)
        }
    }
}

/// The largest `qbit_depth` over the qubits below `n`.
pub open spec fn depth_below(
    gates: Seq<CliffordGate>,
    with_cz: bool,
    n: nat,
) -> nat
    decreases n,
{
    if n == 0 {
        0
    } else {
        let rest = depth_below(gates, with_cz, (n - 1) as nat);
        let here = qbit_depth(gates, with_cz, n - 1);
        if here >= rest {
            here
        } else {
            rest
        }
    }
}

/// The gates in reverse order, each replaced by its inverse.
pub open spec fn spec_dagger_gates(gates: Seq<CliffordGate>) -> Seq<CliffordGate> {
    Seq::new(gates.len(), |k: int| gates[gates.len() - 1 - k].spec_dagger())
}

/// A layer index never exceeds the number of gates.
pub proof fn lemma_qbit_depth_bound(
    gates: Seq<CliffordGate>,
    with_cz: bool,
    q: int,
)
    ensures
        qbit_depth(gates, with_cz, q) <= gates.len(),
    decreases gates.len(),
{
    if gates.len() > 0 {
        let before = gates.drop_last();
        let g = gates.last();
        lemma_qbit_depth_bound(before, with_cz, q);
        if g.counts(with_cz) && g.touches(q) {
            lemma_qbit_depth_bound(before, with_cz, g.spec_qbits()[0] as int);
            lemma_qbit_depth_bound(before, with_cz, g.spec_qbits()[1] as int);
        }
    }
}

/// The depth below `n` is the greatest of the layers reached on the qubits
/// below `n`.
pub proof fn lemma_depth_below_is_max(gates: Seq<CliffordGate>, with_cz: bool, n: nat)
    ensures
        forall|q: int| 0 <= q < n ==> #[trigger] qbit_depth(gates, with_cz, q) <= depth_below(
            gates,
            with_cz,
            n,
        ),
        n == 0 ==> depth_below(gates, with_cz, n) == 0,
        n > 0 ==> exists|q: int|
            0 <= q < n && #[trigger] qbit_depth(gates, with_cz, q) == depth_below(
                gates,
                with_cz,
                n,
            ),
    decreases n,
{
    if n > 0 {
        lemma_depth_below_is_max(gates, with_cz, (n - 1) as nat);
        let rest = depth_below(gates, with_cz, (n - 1) as nat);
        let here = qbit_depth(gates, with_cz, n - 1);
        if here >= rest {
            assert(qbit_depth(gates, with_cz, n - 1) == depth_below(gates, with_cz, n));
        } else {
            let q = choose|q: int|
                0 <= q < n - 1 && #[trigger] qbit_depth(gates, with_cz, q) == rest;
            assert(qbit_depth(gates, with_cz, q) == depth_below(gates, with_cz, n));
        }
    }
}

/// Gates that do not count change no layer.
pub proof fn lemma_depth_skip(
    gates: Seq<CliffordGate>,
    more: Seq<CliffordGate>,
    with_cz: bool,
    q: int,
)
    requires
        forall|k: int| 0 <= k < more.len() ==> !(#[trigger] more[k]).counts(with_cz),
    ensures
        qbit_depth(gates + more, with_cz, q) == qbit_depth(gates, with_cz, q),
    decreases more.len(),
{
    if more.len() == 0 {
        assert(gates + more =~= gates);
    } else {
        let init = more.drop_last();
        assert((gates + more).drop_last() =~= gates + init);
        assert((gates + more).last() == more.last());
        assert(!more[more.len() - 1].counts(with_cz));
        lemma_depth_skip(gates, init, with_cz, q);
    }
}

/// An ordered list of Clifford gates on `nqbits` qubits.
#[derive(Debug)]
pub struct CliffordCircuit {
    pub nqbits: usize,
    pub gates: Vec<CliffordGate>,
}

impl View for CliffordCircuit {
    type V = Seq<CliffordGate>;

    open spec fn view(&self) -> Seq<CliffordGate> {
        self.gates@
    }
}

impl CliffordCircuit {
    /// Every gate of the circuit fits its number of qubits.
    pub open spec fn wf(&self) -> bool {
        all_fit(self.gates@, self.nqbits as nat)
    }

    /// The empty circuit on `nqbits` qubits.
    pub fn new(nqbits: usize) -> (r: Self)
        ensures
            r.nqbits == nqbits,
            r@ == Seq::<CliffordGate>::empty(),
            r.wf(),
    {
        Self { nqbits, gates: Vec::new() }
    }

    /// Draws a circuit of `ngates` gates at random: each gate is a CNOT on
    /// two different qubits with one chance in two, an H with one chance in
    /// four, and an S else.
    pub fn random(nqubits: usize, ngates: usize) -> (r: Self)
        requires
            nqubits >= 2 || ngates == 0,
        ensures
            r.nqbits == nqubits,
            r@.len() == ngates,
            r.wf(),
            forall|k: int|
                0 <= k < r@.len() ==> (#[trigger] r@[k]) is CNOT || r@[k] is H || r@[k] is S,
    {
        let mut circuit = Self::new(nqubits);
        let mut k: usize = 0;
        while k < ngates
            invariant
                nqubits >= 2 || ngates == 0,
                k <= ngates,
                circuit.nqbits == nqubits,
                circuit@.len() == k,
                circuit.wf(),
                forall|j: int|
                    0 <= j < circuit@.len() ==> (#[trigger] circuit@[j]) is CNOT || circuit@[j] is H
                        || circuit@[j] is S,
            decreases ngates - k,
        {
            let gate = if random_between(0, 2) == 0 {
                let i = random_between(0, nqubits);
                let other = random_between(0, nqubits - 1);
                let j = if other >= i {
                    other + 1
                } else {
                    other
                };
                CliffordGate::CNOT(i, j)
            } else if random_between(0, 2) == 0 {
                CliffordGate::H(random_between(0, nqubits))
            } else {
                CliffordGate::S(random_between(0, nqubits))
            };
            circuit.gates.push(gate);
            k += 1;
        }
        circuit
    }

    /// Appends the gates of `other`, in order.
    pub fn extend_with(&mut self, other: &CliffordCircuit)
        ensures
            final(self)@ == old(self)@ + other@,
            final(self).nqbits == old(self).nqbits,
    {
        let mut k: usize = 0;
        while k < other.gates.len()
            invariant
                k <= other.gates.len(),
                self.nqbits == old(self).nqbits,
                self.gates@ == old(self).gates@ + other.gates@.take(k as int),
            decreases other.gates.len() - k,
        {
            self.gates.push(other.gates[k]);
            k += 1;
            assert(other.gates@.take(k as int) ==
                other.gates@.take(k - 1).push(other.gates@[k - 1]));
        }
        assert(other.gates@.take(k as int) == other.gates@);
    }

    /// Counts the CNOT gates.
    pub fn cnot_count(&self) -> (r: usize)
        ensures
            r == spec_cnot_count(self@),
    {
        let mut count: usize = 0;
        let mut k: usize = 0;
        while k < self.gates.len()
            invariant
                k <= self.gates.len(),
                count == count_gates(self.gates@.take(k as int), false),
                count <= k,
            decreases self.gates.len() - k,
        {
            proof {
                let next = self.gates@.take(k + 1);
                assert(next.drop_last() == self.gates@.take(k as int));
                assert(next.last() == self.gates@[k as int]);
            }
            if let CliffordGate::CNOT(_, _) = self.gates[k] {
                count += 1;
            }
            k += 1;
        }
        assert(self.gates@.take(k as int) == self.gates@);
        count
    }

    /// Counts the two-qubit gates.
    pub fn entangling_count(&self) -> (r: usize)
        ensures
            r == spec_entangling_count(self@),
    {
        let mut count: usize = 0;
        let mut k: usize = 0;
        while k < self.gates.len()
            invariant
                k <= self.gates.len(),
                count == count_gates(self.gates@.take(k as int), true),
                count <= k,
            decreases self.gates.len() - k,
        {
            proof {
                let next = self.gates@.take(k + 1);
                assert(next.drop_last() == self.gates@.take(k as int));
                assert(next.last() == self.gates@[k as int]);
            }
            match self.gates[k] {
                CliffordGate::CNOT(_, _) => {
                    count += 1;
                },
                CliffordGate::CZ(_, _) => {
                    count += 1;
                },
                _ => {},
            }
            k += 1;
        }
        assert(self.gates@.take(k as int) == self.gates@);
        count
    }

    /// The number of layers of CNOT gates.
    pub fn cnot_depth(&self) -> (r: usize)
        requires
            self.wf(),
        ensures
            r == depth_below(self@, false, self.nqbits as nat),
    {
        self.depth_of(false)
    }

    /// The number of layers of two-qubit gates.
    pub fn entangling_depth(&self) -> (r: usize)
        requires
            self.wf(),
        ensures
            r == depth_below(self@, true, self.nqbits as nat),
    {
        self.depth_of(true)
    }

    /// The number of layers of the gates that count: the CNOT gates, and the
    /// CZ gates too if `with_cz` is set.
    fn depth_of(&self, with_cz: bool) -> (r: usize)
        requires
            self.wf(),
        ensures
            r == depth_below(self@, with_cz, self.nqbits as nat),
    {
        let mut depths: Vec<usize> = Vec::new();
        let mut q: usize = 0;
        while q < self.nqbits
            invariant
                q <= self.nqbits,
                depths@.len() == q,
                forall|p: int| 0 <= p < q ==> depths@[p] == 0,
            decreases self.nqbits - q,
        {
            depths.push(0);
            q += 1;
        }
        let mut k: usize = 0;
        while k < self.gates.len()
            invariant
                k <= self.gates.len(),
                self.wf(),
                depths@.len() == self.nqbits,
                forall|p: int|
                    0 <= p < self.nqbits ==> depths@[p] == qbit_depth(
                        self.gates@.take(k as int),
                        with_cz,
                        p,
                    ),
            decreases self.gates.len() - k,
        {
            let gate = self.gates[k];
            proof {
                let next = self.gates@.take(k + 1);
                assert(next.drop_last() == self.gates@.take(k as int));
                assert(next.last() == gate);
                assert(gate.fits(self.nqbits as nat));
                lemma_qbit_depth_bound(self.gates@.take(k as int), with_cz,
                    gate.spec_qbits()[0] as int);
                if gate.is_entangling() {
                    lemma_qbit_depth_bound(
                        self.gates@.take(k as int),
                        with_cz,
                        gate.spec_qbits()[1] as int,
                    );
                }
            }
            match gate {
                CliffordGate::CNOT(i, j) => {
                    let a = depths[i];
                    let b = depths[j];
                    let layer = if a >= b {
                        a + 1
                    } else {
                        b + 1
                    };
                    depths.set(i, layer);
                    depths.set(j, layer);
                },
                CliffordGate::CZ(i, j) => {
                    if with_cz {
                        let a = depths[i];
                        let b = depths[j];
                        let layer = if a >= b {
                            a + 1
                        } else {
                            b + 1
                        };
                        depths.set(i, layer);
                        depths.set(j, layer);
                    }
                },
                _ => {},
            }
            k += 1;
        }
        assert(self.gates@.take(k as int) == self.gates@);
        let mut best: usize = 0;
        let mut q: usize = 0;
        while q < self.nqbits
            invariant
                q <= self.nqbits,
                depths@.len() == self.nqbits,
                forall|p: int|
                    0 <= p < self.nqbits ==> depths@[p] == qbit_depth(self.gates@, with_cz, p),
                best == depth_below(self.gates@, with_cz, q as nat),
            decreases self.nqbits - q,
        {
            if depths[q] >= best {
                best = depths[q];
            }
            q += 1;
        }
        best
    }

    /// Returns the inverse circuit: the gates in reverse order, each inverted.
    pub fn dagger(&self) -> (r: Self)
        ensures
            r.nqbits == self.nqbits,
            r@ == spec_dagger_gates(self@),
    {
        let mut gates: Vec<CliffordGate> = Vec::new();
        let len = self.gates.len();
        let mut k: usize = 0;
        while k < len
            invariant
                k <= len,
                len == self.gates@.len(),
                gates@.len() == k,
                forall|p: int| 0 <= p < k ==> gates@[p] == self.gates@[len - 1 - p].spec_dagger(),
            decreases len - k,
        {
            gates.push(self.gates[len - 1 - k].dagger());
            k += 1;
        }
        assert(gates@ =~= spec_dagger_gates(self.gates@));
        Self { nqbits: self.nqbits, gates }
    }

    /// Returns the gates as pairs of a name and a list of qubits.
    pub fn to_vec(&self) -> (r: Vec<(String, Vec<usize>)>)
        ensures
            r@.len() == self@.len(),
            forall|k: int|
                0 <= k < r@.len() ==> (#[trigger] r@[k]).0@ == self@[k].spec_name() && r@[k].1@
                    == self@[k].spec_qbits(),
    {
        let mut out: Vec<(String, Vec<usize>)> = Vec::new();
        let mut k: usize = 0;
        while k < self.gates.len()
            invariant
                k <= self.gates.len(),
                out@.len() == k,
                forall|p: int|
                    0 <= p < k ==> (#[trigger] out@[p]).0@ == self.gates@[p].spec_name()
                        && out@[p].1@ == self.gates@[p].spec_qbits(),
            decreases self.gates.len() - k,
        {
            out.push(self.gates[k].to_vec());
            k += 1;
        }
        out
    }
}

} // verus!
