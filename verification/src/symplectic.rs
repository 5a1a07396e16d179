//! Signed Pauli strings in symplectic form, and the action of the Clifford
//! gates on them.
//!
//! A Pauli string on `n` qubits is a sign bit and two bit vectors `x` and `z`;
//! the letter at qubit `q` is I, X, Z or Y as the pair `(x[q], z[q])` is
//! `(0, 0)`, `(1, 0)`, `(0, 1)` or `(1, 1)`. This is the mathematical model in
//! which the contracts of the operator container are stated.

use crate::clifford_circuit::CliffordGate;
use vstd::prelude::*;

verus! {

/// One letter of a Pauli string.
#[derive(Debug, Clone, Copy, PartialEq, Eq, Structural)]
pub enum Letter {
    I,
    X,
    Y,
    Z,
}

/// The letter encoded by an X bit and a Z bit.
pub open spec fn letter_of(x: bool, z: bool) -> Letter {
    if x && z {
        Letter::Y
    } else if x {
        Letter::X
    } else if z {
        Letter::Z
    } else {
        Letter::I
    }
}

/// The character that stands for a letter.
pub open spec fn letter_char(l: Letter) -> char {
    match l {
        Letter::I => 'I',
        Letter::X => 'X',
        Letter::Y => 'Y',
        Letter::Z => 'Z',
    }
}

/// The X bit that a character of an operator string sets.
pub open spec fn char_x(c: char) -> bool {
    c == 'X' || c == 'Y'
}

/// The Z bit that a character of an operator string sets.
pub open spec fn char_z(c: char) -> bool {
    c == 'Z' || c == 'Y'
}

/// A signed Pauli string.
pub struct PauliString {
    pub sign: bool,
    pub x: Seq<bool>,
    pub z: Seq<bool>,
}

impl PauliString {
    /// The string is on `n` qubits.
    pub open spec fn wf(self, n: nat) -> bool {
        self.x.len() == n && self.z.len() == n
    }

    /// The positive identity string on `n` qubits.
    pub open spec fn identity(n: nat) -> PauliString {
        PauliString { sign: false, x: Seq::new(n, |q: int| false), z: Seq::new(n, |q: int| false) }
    }

    /// The string read from the characters of `axis`, cut or padded with I
    /// to `n` qubits; a character other than X, Y and Z reads as I.
    pub open spec fn from_chars(axis: Seq<char>, sign: bool, n: nat) -> PauliString {
        PauliString {
            sign,
            x: Seq::new(n, |q: int| q < axis.len() && char_x(axis[q])),
            z: Seq::new(n, |q: int| q < axis.len() && char_z(axis[q])),
        }
    }

    /// The string whose X bits are the first `n` entries of `bits` and whose
    /// Z bits are the next `n`; missing entries read as 0.
    pub open spec fn from_bits(bits: Seq<bool>, sign: bool, n: nat) -> PauliString {
        PauliString {
            sign,
            x: Seq::new(n, |q: int| q < bits.len() && bits[q]),
            z: Seq::new(n, |q: int| q + n < bits.len() && bits[q + n]),
        }
    }

    /// The X bits followed by the Z bits.
    pub open spec fn bits(self) -> Seq<bool> {
        self.x + self.z
    }

    /// The letter at qubit `q`.
    pub open spec fn letter(self, q: int) -> Letter {
        letter_of(self.x[q], self.z[q])
    }

    /// The string as characters, one per qubit.
    pub open spec fn chars(self) -> Seq<char> {
        Seq::new(self.x.len(), |q: int| letter_char(self.letter(q)))
    }

    /// The letter at qubit `q` is I.
    pub open spec fn is_id(self, q: int) -> bool {
        !self.x[q] && !self.z[q]
    }

    /// The number of qubits below `k` whose letter is not I.
    pub open spec fn support_below(self, k: nat) -> nat
        decreases k,
    {
        if k == 0 {
            0
        } else {
            self.support_below((k - 1) as nat) + if self.is_id(k - 1) {
                0nat
            } else {
                1nat
            }
        }
    }

    /// The number of qubits whose letter is not I.
    pub open spec fn support_size(self) -> nat {
        self.support_below(self.x.len())
    }

    /// The qubits below `k` whose letter is not I, in ascending order.
    pub open spec fn support_list(self, k: nat) -> Seq<usize>
        decreases k,
    {
        if k == 0 {
            Seq::empty()
        } else if self.is_id(k - 1) {
            self.support_list((k - 1) as nat)
        } else {
            self.support_list((k - 1) as nat).push((k - 1) as usize)
        }
    }

    /// The qubits whose letter is not I, in ascending order.
    pub open spec fn support(self) -> Seq<usize> {
        self.support_list(self.x.len())
    }

    /// The string with the letters of qubits `i` and `j` exchanged.
    pub open spec fn swap(self, i: int, j: int) -> PauliString {
        PauliString {
            sign: self.sign,
            x: self.x.update(i, self.x[j]).update(j, self.x[i]),
            z: self.z.update(i, self.z[j]).update(j, self.z[i]),
        }
    }

    /// The string has at most one letter that is not I.
    pub open spec fn is_trivial(self) -> bool {
        self.support_size() <= 1
    }

    /// The strings anticommute on qubit `q`.
    pub open spec fn clashes_at(self, other: PauliString, q: int) -> bool {
        (self.x[q] && other.z[q]) != (self.z[q] && other.x[q])
    }

    /// The symplectic inner product of the two strings over the qubits below
    /// `k`: true if they anticommute on an odd number of them.
    pub open spec fn product_below(self, other: PauliString, k: nat) -> bool
        decreases k,
    {
        if k == 0 {
            false
        } else {
            self.product_below(other, (k - 1) as nat) != self.clashes_at(other, k - 1)
        }
    }

    /// The two strings commute: their symplectic inner product is 0.
    pub open spec fn commutes(self, other: PauliString) -> bool {
        !self.product_below(other, self.x.len())
    }

    /// Conjugation by H on qubit `i`.
    pub open spec fn h(self, i: int) -> PauliString {
        PauliString {
            sign: self.sign != (self.x[i] && self.z[i]),
            x: self.x.update(i, self.z[i]),
            z: self.z.update(i, self.x[i]),
        }
    }

    /// Conjugation by S on qubit `i`.
    pub open spec fn s(self, i: int) -> PauliString {
        PauliString {
            sign: self.sign != (self.x[i] && self.z[i]),
            x: self.x,
            z: self.z.update(i, self.z[i] != self.x[i]),
        }
    }

    /// Conjugation by the inverse of S on qubit `i`.
    pub open spec fn sd(self, i: int) -> PauliString {
        PauliString {
            sign: self.sign != (self.x[i] && !self.z[i]),
            x: self.x,
            z: self.z.update(i, self.z[i] != self.x[i]),
        }
    }

    /// Conjugation by the square root of X on qubit `i`.
    pub open spec fn sqrt_x(self, i: int) -> PauliString {
        PauliString {
            sign: self.sign != (!self.x[i] && self.z[i]),
            x: self.x.update(i, self.x[i] != self.z[i]),
            z: self.z,
        }
    }

    /// Conjugation by the inverse of the square root of X on qubit `i`.
    pub open spec fn sqrt_xd(self, i: int) -> PauliString {
        PauliString {
            sign: self.sign != (self.x[i] && self.z[i]),
            x: self.x.update(i, self.x[i] != self.z[i]),
            z: self.z,
        }
    }

    /// Conjugation by CNOT with control `i` and target `j`.
    pub open spec fn cnot(self, i: int, j: int) -> PauliString {
        PauliString {
            sign: self.sign != (self.x[i] && self.z[j] && (self.x[j] == self.z[i])),
            x: self.x.update(j, self.x[j] != self.x[i]),
            z: self.z.update(i, self.z[i] != self.z[j]),
        }
    }

    /// Conjugation by CZ on qubits `i` and `j`: H on `j`, CNOT, H on `j`.
    pub open spec fn cz(self, i: int, j: int) -> PauliString {
        self.h(j).cnot(i, j).h(j)
    }

    /// Conjugation by a gate.
    pub open spec fn conj(self, g: CliffordGate) -> PauliString {
        match g {
            CliffordGate::CNOT(i, j) => self.cnot(i as int, j as int),
            CliffordGate::CZ(i, j) => self.cz(i as int, j as int),
            CliffordGate::H(i) => self.h(i as int),
            CliffordGate::S(i) => self.s(i as int),
            CliffordGate::Sd(i) => self.sd(i as int),
            CliffordGate::SqrtX(i) => self.sqrt_x(i as int),
            CliffordGate::SqrtXd(i) => self.sqrt_xd(i as int),
        }
    }

    /// Conjugation by the gates of `gates`, in order.
    pub open spec fn conj_all(self, gates: Seq<CliffordGate>) -> PauliString
        decreases gates.len(),
    {
        if gates.len() == 0 {
            self
        } else {
            self.conj_all(gates.drop_last()).conj(gates.last())
        }
    }
}

/// The letter and the sign change that H gives for a letter.
pub open spec fn h_table(l: Letter) -> (Letter, bool) {
    match l {
        Letter::I => (Letter::I, false),
        Letter::X => (Letter::Z, false),
        Letter::Y => (Letter::Y, true),
        Letter::Z => (Letter::X, false),
    }
}

/// The letter and the sign change that S gives for a letter.
pub open spec fn s_table(l: Letter) -> (Letter, bool) {
    match l {
        Letter::I => (Letter::I, false),
        Letter::X => (Letter::Y, false),
        Letter::Y => (Letter::X, true),
        Letter::Z => (Letter::Z, false),
    }
}

/// The letter and the sign change that the inverse of S gives for a letter.
pub open spec fn sd_table(l: Letter) -> (Letter, bool) {
    match l {
        Letter::I => (Letter::I, false),
        Letter::X => (Letter::Y, true),
        Letter::Y => (Letter::X, false),
        Letter::Z => (Letter::Z, false),
    }
}

/// The letter and the sign change that the square root of X gives.
pub open spec fn sqrt_x_table(l: Letter) -> (Letter, bool) {
    match l {
        Letter::I => (Letter::I, false),
        Letter::X => (Letter::X, false),
        Letter::Y => (Letter::Z, false),
        Letter::Z => (Letter::Y, true),
    }
}

/// The letter and the sign change that the inverse square root of X gives.
pub open spec fn sqrt_xd_table(l: Letter) -> (Letter, bool) {
    match l {
        Letter::I => (Letter::I, false),
        Letter::X => (Letter::X, false),
        Letter::Y => (Letter::Z, true),
        Letter::Z => (Letter::Y, false),
    }
}

/// The letters on control and target, and the sign change, that CNOT gives
/// for the letters `c` on its control and `t` on its target.
pub open spec fn cnot_table(c: Letter, t: Letter) -> (Letter, Letter, bool) {
    match (c, t) {
        (Letter::I, Letter::I) => (Letter::I, Letter::I, false),
        (Letter::I, Letter::X) => (Letter::I, Letter::X, false),
        (Letter::I, Letter::Y) => (Letter::Z, Letter::Y, false),
        (Letter::I, Letter::Z) => (Letter::Z, Letter::Z, false),
        (Letter::X, Letter::I) => (Letter::X, Letter::X, false),
        (Letter::X, Letter::X) => (Letter::X, Letter::I, false),
        (Letter::X, Letter::Y) => (Letter::Y, Letter::Z, false),
        (Letter::X, Letter::Z) => (Letter::Y, Letter::Y, true),
        (Letter::Y, Letter::I) => (Letter::Y, Letter::X, false),
        (Letter::Y, Letter::X) => (Letter::Y, Letter::I, false),
        (Letter::Y, Letter::Y) => (Letter::X, Letter::Z, true),
        (Letter::Y, Letter::Z) => (Letter::X, Letter::Y, false),
        (Letter::Z, Letter::I) => (Letter::Z, Letter::I, false),
        (Letter::Z, Letter::X) => (Letter::Z, Letter::X, false),
        (Letter::Z, Letter::Y) => (Letter::I, Letter::Y, false),
        (Letter::Z, Letter::Z) => (Letter::I, Letter::Z, false),
    }
}

/// The letters and the sign change that CZ gives for the letters `a` and `b`
/// on its two qubits.
pub open spec fn cz_table(a: Letter, b: Letter) -> (Letter, Letter, bool) {
    match (a, b) {
        (Letter::I, Letter::I) => (Letter::I, Letter::I, false),
        (Letter::I, Letter::X) => (Letter::Z, Letter::X, false),
        (Letter::I, Letter::Y) => (Letter::Z, Letter::Y, false),
        (Letter::I, Letter::Z) => (Letter::I, Letter::Z, false),
        (Letter::X, Letter::I) => (Letter::X, Letter::Z, false),
        (Letter::X, Letter::X) => (Letter::Y, Letter::Y, false),
        (Letter::X, Letter::Y) => (Letter::Y, Letter::X, true),
        (Letter::X, Letter::Z) => (Letter::X, Letter::I, false),
        (Letter::Y, Letter::I) => (Letter::Y, Letter::Z, false),
        (Letter::Y, Letter::X) => (Letter::X, Letter::Y, true),
        (Letter::Y, Letter::Y) => (Letter::X, Letter::X, false),
        (Letter::Y, Letter::Z) => (Letter::Y, Letter::I, false),
        (Letter::Z, Letter::I) => (Letter::Z, Letter::I, false),
        (Letter::Z, Letter::X) => (Letter::I, Letter::X, false),
        (Letter::Z, Letter::Y) => (Letter::I, Letter::Y, false),
        (Letter::Z, Letter::Z) => (Letter::Z, Letter::Z, false),
    }
}

/// The letter and sign change that a one-qubit gate gives for a letter.
pub open spec fn local_table(g: CliffordGate, l: Letter) -> (Letter, bool) {
    match g {
        CliffordGate::H(_) => h_table(l),
        CliffordGate::S(_) => s_table(l),
        CliffordGate::Sd(_) => sd_table(l),
        CliffordGate::SqrtX(_) => sqrt_x_table(l),
        CliffordGate::SqrtXd(_) => sqrt_xd_table(l),
        _ => (l, false),
    }
}

/// The letters and sign change that a two-qubit gate gives for the letters
/// on its first and second qubit.
pub open spec fn pair_table(g: CliffordGate, a: Letter, b: Letter) -> (Letter, Letter, bool) {
    match g {
        CliffordGate::CNOT(_, _) => cnot_table(a, b),
        CliffordGate::CZ(_, _) => cz_table(a, b),
        _ => (a, b, false),
    }
}

/// A one-qubit gate acts on the letter of its qubit as its conjugation table
/// says, flips the sign where the table says so, and leaves every other
/// letter as it was.
pub proof fn lemma_local_gate_table(p: PauliString, g: CliffordGate, n: nat)
    requires
        p.wf(n),
        g.fits(n),
        !g.is_entangling(),
    ensures
        p.conj(g).wf(n),
        p.conj(g).letter(g.spec_qbits()[0] as int) == local_table(
            g,
            p.letter(g.spec_qbits()[0] as int),
        ).0,
        p.conj(g).sign == (p.sign != local_table(g, p.letter(g.spec_qbits()[0] as int)).1),
        forall|q: int| 0 <= q < n && !g.touches(q) ==> p.conj(g).letter(q) == p.letter(q),
{
}

/// A two-qubit gate acts on the two letters of its qubits as its conjugation
/// table says, flips the sign where the table says so, and leaves every
/// other letter as it was.
pub proof fn lemma_pair_gate_table(p: PauliString, g: CliffordGate, n: nat)
    requires
        p.wf(n),
        g.fits(n),
        g.is_entangling(),
    ensures
        p.conj(g).wf(n),
        ({
            let i = g.spec_qbits()[0] as int;
            let j = g.spec_qbits()[1] as int;
            let t = pair_table(g, p.letter(i), p.letter(j));
            &&& p.conj(g).letter(i) == t.0
            &&& p.conj(g).letter(j) == t.1
            &&& p.conj(g).sign == (p.sign != t.2)
        }),
        forall|q: int| 0 <= q < n && !g.touches(q) ==> p.conj(g).letter(q) == p.letter(q),
{
}

/// H is its own inverse.
pub proof fn lemma_h_twice(p: PauliString, n: nat, i: int)
    requires
        p.wf(n),
        0 <= i < n,
    ensures
        p.h(i).h(i) == p,
{
    let r = p.h(i).h(i);
    assert(r.x =~= p.x);
    assert(r.z =~= p.z);
}

/// CNOT is its own inverse.
pub proof fn lemma_cnot_twice(p: PauliString, n: nat, i: int, j: int)
    requires
        p.wf(n),
        0 <= i < n,
        0 <= j < n,
        i != j,
    ensures
        p.cnot(i, j).cnot(i, j) == p,
{
    let r = p.cnot(i, j).cnot(i, j);
    assert(r.x =~= p.x);
    assert(r.z =~= p.z);
}

/// Conjugation by a gate and then by its inverse gives the string back.
pub proof fn lemma_conj_dagger(p: PauliString, g: CliffordGate, n: nat)
    requires
        p.wf(n),
        g.fits(n),
    ensures
        p.conj(g).conj(g.spec_dagger()) == p,
{
    let r = p.conj(g).conj(g.spec_dagger());
    match g {
        CliffordGate::CNOT(i, j) => {
            lemma_cnot_twice(p, n, i as int, j as int);
        },
        CliffordGate::CZ(i, j) => {
            let a = p.h(j as int);
            let b = a.cnot(i as int, j as int);
            lemma_h_twice(b, n, j as int);
            lemma_cnot_twice(a, n, i as int, j as int);
            lemma_h_twice(p, n, j as int);
        },
        CliffordGate::H(i) => {
            lemma_h_twice(p, n, i as int);
        },
        _ => {
            assert(r.x =~= p.x);
            assert(r.z =~= p.z);
        },
    }
}

/// Conjugation leaves the identity string as it is.
pub proof fn lemma_conj_identity(g: CliffordGate, n: nat)
    requires
        g.fits(n),
    ensures
        PauliString::identity(n).conj(g) == PauliString::identity(n),
{
    let p = PauliString::identity(n);
    let r = p.conj(g);
    assert(r.x =~= p.x);
    assert(r.z =~= p.z);
}

/// Two strings anticommute on a qubit if their letters on it are two
/// different letters other than I.
pub proof fn lemma_clash_by_letters(a: PauliString, b: PauliString, q: int)
    ensures
        a.clashes_at(b, q) == (a.letter(q) != Letter::I && b.letter(q) != Letter::I && a.letter(q)
            != b.letter(q)),
{
}

/// The symplectic inner product is symmetric.
pub proof fn lemma_product_symmetric(a: PauliString, b: PauliString, k: nat)
    ensures
        a.product_below(b, k) == b.product_below(a, k),
    decreases k,
{
    if k > 0 {
        lemma_product_symmetric(a, b, (k - 1) as nat);
    }
}

/// Two strings on the same qubits commute in either order or in neither.
pub proof fn lemma_commutes_symmetric(a: PauliString, b: PauliString)
    requires
        a.x.len() == b.x.len(),
    ensures
        a.commutes(b) == b.commutes(a),
{
    lemma_product_symmetric(a, b, a.x.len());
}

/// Conjugation by the gates of `a` and then by those of `b` is conjugation by
/// `a + b`.
pub proof fn lemma_conj_all_concat(p: PauliString, a: Seq<CliffordGate>, b: Seq<CliffordGate>)
    ensures
        p.conj_all(a + b) == p.conj_all(a).conj_all(b),
    decreases b.len(),
{
    if b.len() == 0 {
        assert(a + b =~= a);
    } else {
        assert((a + b).drop_last() =~= a + b.drop_last());
        assert((a + b).last() == b.last());
        lemma_conj_all_concat(p, a, b.drop_last());
    }
}

/// Conjugation by a circuit of one gate is conjugation by that gate.
pub proof fn lemma_conj_all_single(p: PauliString, g: CliffordGate)
    ensures
        p.conj_all(seq![g]) == p.conj(g),
{
    let one = seq![g];
    assert(one.drop_last() =~= Seq::<CliffordGate>::empty());
    assert(one.last() == g);
    assert(p.conj_all(one.drop_last()) == p);
}

/// Conjugation by a circuit whose gates fit keeps the number of qubits.
pub proof fn lemma_conj_all_wf(p: PauliString, gates: Seq<CliffordGate>, n: nat)
    requires
        p.wf(n),
        crate::clifford_circuit::all_fit(gates, n),
    ensures
        p.conj_all(gates).wf(n),
    decreases gates.len(),
{
    if gates.len() > 0 {
        lemma_conj_all_wf(p, gates.drop_last(), n);
        assert(gates.last().fits(n));
    }
}

/// A string is read back from its own bits.
pub proof fn lemma_bits_round_trip(p: PauliString, n: nat)
    requires
        p.wf(n),
    ensures
        PauliString::from_bits(p.bits(), p.sign, n) == p,
{
    let r = PauliString::from_bits(p.bits(), p.sign, n);
    assert(r.x =~= p.x);
    assert(r.z =~= p.z);
}

/// The support of a string on `n` qubits has at most `n` elements.
pub proof fn lemma_support_bound(p: PauliString, k: nat)
    ensures
        p.support_below(k) <= k,
    decreases k,
{
    if k > 0 {
        lemma_support_bound(p, (k - 1) as nat);
    }
}

/// The list of the support has as many entries as the support has elements,
/// each of them a qubit below `k`, in strictly ascending order.
pub proof fn lemma_support_list(p: PauliString, k: nat)
    requires
        k <= usize::MAX,
    ensures
        p.support_list(k).len() == p.support_below(k),
        forall|i: int|
            0 <= i < p.support_list(k).len() ==> (#[trigger] p.support_list(k)[i]) < k && !p.is_id(
                p.support_list(k)[i] as int,
            ),
        forall|i: int, j: int|
            0 <= i < j < p.support_list(k).len() ==> (#[trigger] p.support_list(k)[i]) < (
            #[trigger] p.support_list(k)[j]),
        forall|q: int|
            0 <= q < k && !p.is_id(q) ==> exists|i: int|
                0 <= i < p.support_list(k).len() && #[trigger] p.support_list(k)[i] == q,
    decreases k,
{
    if k > 0 {
        let rest = p.support_list((k - 1) as nat);
        lemma_support_list(p, (k - 1) as nat);
        let all = p.support_list(k);
        assert forall|q: int| 0 <= q < k && !p.is_id(q) implies exists|i: int|
            0 <= i < all.len() && #[trigger] all[i] == q by {
            if q < k - 1 {
                let i = choose|i: int| 0 <= i < rest.len() && #[trigger] rest[i] == q;
                assert(all[i] == q);
            } else {
                assert(all[all.len() - 1] == q);
            }
        }
    }
}

} // verus!
