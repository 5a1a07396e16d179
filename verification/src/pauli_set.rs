//! A bit-packed, first-in first-out container of Pauli operators.
//!
//! The container stores its operators as the columns of a bit matrix with
//! `2 n` rows, packed 64 columns to a word: row `q` holds the X bits of qubit
//! `q` and row `q + n` its Z bits; one more packed row holds the signs.
//! Operators enter at the back and leave at the front, and a Clifford gate
//! conjugates all of them in one pass over a few rows.

use crate::bits::{
    bit, get_offset, get_stride, lemma_bit_and, lemma_bit_clear, lemma_bit_or, lemma_bit_set,
    lemma_bit_xor, lemma_bit_zero, lemma_trailing_zeros, test_bit,
};
use crate::clifford_circuit::{all_fit, CliffordCircuit, CliffordGate};
use crate::symplectic::{lemma_bits_round_trip, lemma_conj_identity, letter_char, PauliString};
use crate::pauli::Pauli;
use crate::sorting::{lemma_order_until_short, lemma_stable_order, order_until, stable_order};
use vstd::prelude::*;
use vstd::string::StringExecFns;

verus! {

/// What a container holds: its operators on `n` qubits, oldest first.
pub struct PauliSetView {
    pub n: nat,
    pub ops: Seq<PauliString>,
}

/// The number of strings at the front of `ops` whose letter at `q` is I.
pub open spec fn leading_ids(ops: Seq<PauliString>, q: int) -> nat
    decreases ops.len(),
{
    if ops.len() == 0 || !ops[0].is_id(q) {
        0
    } else {
        1 + leading_ids(ops.drop_first(), q)
    }
}

impl PauliSetView {
    /// Every operator is on `n` qubits.
    pub open spec fn wf(self) -> bool {
        forall|k: int| 0 <= k < self.ops.len() ==> (#[trigger] self.ops[k]).wf(self.n)
    }

    /// The number of operators, counted from the oldest, that come before
    /// the first operator that is not I on qubit `q`; the number of all the
    /// operators if there is no such operator.
    pub open spec fn count_id(self, q: int) -> nat {
        leading_ids(self.ops, q)
    }

    /// The container after conjugation of every operator by `g`.
    pub open spec fn conj(self, g: CliffordGate) -> PauliSetView {
        PauliSetView { ops: self.ops.map_values(|p: PauliString| p.conj(g)), ..self }
    }

    /// The container after conjugation of every operator by `gates`, in order.
    pub open spec fn conj_all(self, gates: Seq<CliffordGate>) -> PauliSetView {
        PauliSetView { ops: self.ops.map_values(|p: PauliString| p.conj_all(gates)), ..self }
    }

    /// The container after `p` has entered at the back.
    pub open spec fn push(self, p: PauliString) -> PauliSetView {
        PauliSetView { ops: self.ops.push(p), ..self }
    }

    /// The container after the oldest operator has left.
    pub open spec fn pop(self) -> PauliSetView {
        PauliSetView { ops: self.ops.drop_first(), ..self }
    }

    /// The support sizes of the operators.
    pub open spec fn support_keys(self) -> Seq<nat> {
        self.ops.map_values(|p: PauliString| p.support_size())
    }

    /// The container after a stable sort of its operators by ascending
    /// support size.
    pub open spec fn sorted(self) -> PauliSetView {
        PauliSetView {
            ops: stable_order(self.support_keys(), self.n).map_values(|j: int| self.ops[j]),
            ..self
        }
    }

    /// The container without its operators.
    pub open spec fn cleared(self) -> PauliSetView {
        PauliSetView { ops: Seq::empty(), ..self }
    }
}

/// Commutation in a container is symmetric: two of its operators commute in
/// either order or in neither, as their symplectic inner product says.
pub proof fn lemma_commute_symmetric(v: PauliSetView, i: int, j: int)
    requires
        v.wf(),
        0 <= i < v.ops.len(),
        0 <= j < v.ops.len(),
    ensures
        v.ops[i].commutes(v.ops[j]) == v.ops[j].commutes(v.ops[i]),
        v.ops[i].commutes(v.ops[j]) == !v.ops[i].product_below(v.ops[j], v.n),
{
    assert(v.ops[i].wf(v.n));
    assert(v.ops[j].wf(v.n));
    crate::symplectic::lemma_commutes_symmetric(v.ops[i], v.ops[j]);
}

/// `leading_ids` is the index of the first string that is not I on `q`.
pub proof fn lemma_leading_ids(ops: Seq<PauliString>, q: int, k: int)
    requires
        0 <= k <= ops.len(),
        forall|i: int| 0 <= i < k ==> (#[trigger] ops[i]).is_id(q),
        k == ops.len() || !ops[k].is_id(q),
    ensures
        leading_ids(ops, q) == k,
    decreases ops.len(),
{
    if k > 0 {
        let rest = ops.drop_first();
        assert forall|i: int| 0 <= i < k - 1 implies (#[trigger] rest[i]).is_id(q) by {
            assert(rest[i] == ops[i + 1]);
        }
        lemma_leading_ids(rest, q, k - 1);
    }
}

/// The strings before `leading_ids` are I on `q`, and the one at it is not.
pub proof fn lemma_leading_ids_is_first(ops: Seq<PauliString>, q: int)
    ensures
        leading_ids(ops, q) <= ops.len(),
        forall|i: int| 0 <= i < leading_ids(ops, q) ==> (#[trigger] ops[i]).is_id(q),
        leading_ids(ops, q) < ops.len() ==> !ops[leading_ids(ops, q) as int].is_id(q),
    decreases ops.len(),
{
    if ops.len() > 0 && ops[0].is_id(q) {
        let rest = ops.drop_first();
        lemma_leading_ids_is_first(rest, q);
        assert forall|i: int| 0 <= i < leading_ids(ops, q) implies (#[trigger] ops[i]).is_id(
            q,
        ) by {
            if i > 0 {
                assert(ops[i] == rest[i - 1]);
            }
        }
        if leading_ids(ops, q) < ops.len() {
            assert(ops[leading_ids(ops, q) as int] == rest[leading_ids(rest, q) as int]);
        }
    }
}

/// A set of Pauli operators on `n` qubits, each with a sign.
/// Conjugation by Clifford gates is vectorised.
#[derive(Clone, Debug, PartialEq)]
pub struct PauliSet {
    /// The number of qubits.
    pub n: usize,
    /// The number of 64-bit words in each row.
    pub nstrides: usize,
    /// The number of operators held.
    pub noperators: usize,
    /// The number of storage slots freed before the oldest operator.
    pub start_offset: usize,
    /// The X and Z parts of the operators, one row per qubit and part: the X
    /// part spans the first `n` rows and the Z part the last `n` rows. Bit
    /// `k % 64` of word `k / 64` of a row belongs to storage slot `k`.
    pub data_array: Vec<Vec<u64>>,
    /// The signs of the operators, packed like a row of `data_array`.
    pub phases: Vec<u64>,
}

impl View for PauliSet {
    type V = PauliSetView;

    closed spec fn view(&self) -> PauliSetView {
        PauliSetView {
            n: self.n as nat,
            ops: Seq::new(self.noperators as nat, |k: int| self.column(self.start_offset + k)),
        }
    }
}

impl PauliSet {
    /// The rows have the lengths that the counters announce.
    pub closed spec fn shaped(&self) -> bool {
        &&& 2 * self.n <= usize::MAX
        &&& self.data_array@.len() == 2 * self.n
        &&& forall|r: int|
            0 <= r < self.data_array@.len() ==> (#[trigger] self.data_array@[r])@.len()
                == self.nstrides
        &&& self.phases@.len() == self.nstrides
        &&& 64 * self.nstrides <= usize::MAX
        &&& self.start_offset + self.noperators <= 64 * self.nstrides
    }

    /// The bit of row `r` in storage slot `slot`.
    pub closed spec fn cell(&self, r: int, slot: int) -> bool {
        bit(self.data_array@[r]@[slot / 64], (slot % 64) as u64)
    }

    /// The sign bit in storage slot `slot`.
    pub closed spec fn sign_cell(&self, slot: int) -> bool {
        bit(self.phases@[slot / 64], (slot % 64) as u64)
    }

    /// The Pauli string stored in slot `slot`.
    pub closed spec fn column(&self, slot: int) -> PauliString {
        PauliString {
            sign: self.sign_cell(slot),
            x: Seq::new(self.n as nat, |q: int| self.cell(q, slot)),
            z: Seq::new(self.n as nat, |q: int| self.cell(q + self.n, slot)),
        }
    }

    /// The slot holds an operator.
    pub closed spec fn occupied(&self, slot: int) -> bool {
        self.start_offset <= slot < self.start_offset + self.noperators
    }

    /// The representation invariant: the rows are shaped, and every slot that
    /// holds no operator holds the positive identity.
    pub closed spec fn wf(&self) -> bool {
        &&& self.shaped()
        &&& forall|slot: int|
            0 <= slot < 64 * self.nstrides && !self.occupied(slot) ==> #[trigger] self.column(slot)
                == PauliString::identity(self.n as nat)
    }

    /// A well-formed container has a well-formed view on its `n` qubits.
    pub proof fn lemma_view_wf(&self)
        requires
            self.wf(),
        ensures
            self@.wf(),
            self@.n == self.n,
            self@.ops.len() == self.noperators,
            self.start_offset + self.noperators <= 64 * self.nstrides,
            64 * self.nstrides <= usize::MAX,
            2 * self.n <= usize::MAX,
    {
    }

    /// The storage can take one more operator: the slot behind the last
    /// operator is allocated, or one more word can be.
    pub open spec fn can_grow(&self) -> bool {
        self.start_offset + self.noperators < 64 * self.nstrides || 64 * (self.nstrides + 1)
            <= usize::MAX
    }

    /// The counters of `after` are those of this container after one more
    /// operator has entered: a full storage has grown by one word.
    pub open spec fn grown(&self, after: &PauliSet) -> bool {
        &&& after.start_offset == self.start_offset
        &&& after.noperators == self.noperators + 1
        &&& after.nstrides == (if self.start_offset + self.noperators == 64 * self.nstrides {
            self.nstrides + 1
        } else {
            self.nstrides as int
        })
    }

    /// Allocates an empty set of `n`-qubit Pauli operators.
    pub fn new(n: usize) -> (r: Self)
        requires
            2 * n <= usize::MAX,
        ensures
            r.wf(),
            r.n == n,
            r.nstrides == 0,
            r.noperators == 0,
            r.start_offset == 0,
            r@ == (PauliSetView { n: n as nat, ops: Seq::empty() }),
    {
        let mut data_array: Vec<Vec<u64>> = Vec::new();
        let mut r: usize = 0;
        while r < 2 * n
            invariant
                2 * n <= usize::MAX,
                r <= 2 * n,
                data_array@.len() == r,
                forall|k: int| 0 <= k < r ==> (#[trigger] data_array@[k])@.len() == 0,
            decreases 2 * n - r,
        {
            data_array.push(Vec::new());
            r += 1;
        }
        let r = Self { n, nstrides: 0, noperators: 0, start_offset: 0, data_array,
            phases: Vec::new() };
        assert(r@.ops =~= Seq::empty());
        r
    }

    /// Returns the number of operators stored in the set.
    pub fn len(&self) -> (r: usize)
        ensures
            r == self@.ops.len(),
    {
        self.noperators
    }
    /// The two containers have the same counters, and both are shaped.
    pub closed spec fn same_frame(&self, other: &PauliSet) -> bool {
        &&& self.shaped()
        &&& other.shaped()
        &&& self.n == other.n
        &&& self.nstrides == other.nstrides
        &&& self.noperators == other.noperators
        &&& self.start_offset == other.start_offset
    }

    /// If every storage slot of `after` holds the string of `self` conjugated
    /// by `g`, then `after` is well formed and holds the operators of `self`
    /// conjugated by `g`.
    proof fn lemma_conjugated(&self, after: &PauliSet, g: CliffordGate)
        requires
            self.wf(),
            after.same_frame(self),
            g.fits(self.n as nat),
            forall|slot: int|
                0 <= slot < 64 * self.nstrides ==> #[trigger] after.column(slot) == self.column(
                    slot,
                ).conj(g),
        ensures
            after.wf(),
            after@ == self@.conj(g),
    {
        assert forall|slot: int|
            0 <= slot < 64 * after.nstrides && !after.occupied(slot) implies
                #[trigger] after.column(
            slot,
        ) == PauliString::identity(after.n as nat) by {
            assert(!self.occupied(slot));
            assert(self.column(slot) == PauliString::identity(self.n as nat));
            lemma_conj_identity(g, self.n as nat);
        }
        assert(after@.ops =~= self@.conj(g).ops);
    }

    /// XORs row `i` into row `j`.
    fn row_op(&mut self, i: usize, j: usize)
        requires
            old(self).shaped(),
            i < 2 * old(self).n,
            j < 2 * old(self).n,
            i != j,
        ensures
            final(self).same_frame(old(self)),
            final(self).phases@ == old(self).phases@,
            forall|r: int|
                0 <= r < 2 * old(self).n && r != j ==>
                    #[trigger] final(self).data_array@[r] == old(self).data_array@[r],
            forall|slot: int|
                0 <= slot < 64 * old(self).nstrides ==> #[trigger] final(self).cell(j as int, slot)
                    == (old(self).cell(j as int, slot) != old(self).cell(i as int, slot)),
    {
        let mut w: usize = 0;
        while w < self.nstrides
            invariant
                old(self).shaped(),
                i < 2 * self.n,
                j < 2 * self.n,
                i != j,
                w <= self.nstrides,
                self.same_frame(old(self)),
                self.phases@ == old(self).phases@,
                forall|r: int|
                    0 <= r < 2 * self.n && r != j ==>
                        #[trigger] self.data_array@[r] == old(self).data_array@[r],
                forall|k: int|
                    0 <= k < w ==> #[trigger] self.data_array@[j as int]@[k] ==
                        old(self).data_array@[j as int]@[k] ^ old(self).data_array@[i as int]@[k],
                forall|k: int|
                    w <= k < self.nstrides ==>
                        #[trigger] self.data_array@[j as int]@[k] ==
                        old(self).data_array@[j as int]@[k],
            decreases self.nstrides - w,
        {
            let v = self.data_array[j][w] ^ self.data_array[i][w];
            self.data_array[j][w] = v;
            w += 1;
        }
        proof {
            assert forall|slot: int| 0 <= slot < 64 * old(self).nstrides implies
                #[trigger] self.cell(
                j as int,
                slot,
            ) == (old(self).cell(j as int, slot) != old(self).cell(i as int, slot)) by {
                lemma_bit_xor(
                    old(self).data_array@[j as int]@[slot / 64],
                    old(self).data_array@[i as int]@[slot / 64],
                    (slot % 64) as u64,
                );
            }
        }
    }

    /// Flips the sign of every operator whose bits in rows `i` and `j` are
    /// both set.
    fn update_phase_and(&mut self, i: usize, j: usize)
        requires
            old(self).shaped(),
            i < 2 * old(self).n,
            j < 2 * old(self).n,
        ensures
            final(self).same_frame(old(self)),
            final(self).data_array@ == old(self).data_array@,
            forall|slot: int|
                0 <= slot < 64 * old(self).nstrides ==> #[trigger] final(self).sign_cell(slot) == (
                old(self).sign_cell(slot) != (old(self).cell(i as int, slot) && old(self).cell(
                    j as int,
                    slot,
                ))),
    {
        let mut w: usize = 0;
        while w < self.nstrides
            invariant
                old(self).shaped(),
                i < 2 * self.n,
                j < 2 * self.n,
                w <= self.nstrides,
                self.same_frame(old(self)),
                self.data_array@ == old(self).data_array@,
                forall|k: int|
                    0 <= k < w ==> #[trigger] self.phases@[k] ==
                        old(self).phases@[k] ^ (old(self).data_array@[i as int]@[k] &
                        old(self).data_array@[j as int]@[k]),
                forall|k: int|
                    w <= k < self.nstrides ==> #[trigger] self.phases@[k] == old(self).phases@[k],
            decreases self.nstrides - w,
        {
            let v = self.phases[w] ^ (self.data_array[i][w] & self.data_array[j][w]);
            self.phases[w] = v;
            w += 1;
        }
        proof {
            assert forall|slot: int|
                0 <= slot < 64 * old(self).nstrides implies
                    #[trigger] self.sign_cell(slot) ==
                    (old(self).sign_cell(slot) != (old(self).cell(i as int, slot) && old(self).cell(
                j as int,
                slot,
            ))) by {
                let a = old(self).data_array@[i as int]@[slot / 64];
                let b = old(self).data_array@[j as int]@[slot / 64];
                lemma_bit_and(a, b, (slot % 64) as u64);
                lemma_bit_xor(old(self).phases@[slot / 64], a & b, (slot % 64) as u64);
            }
        }
    }

    /// Flips the sign of every operator whose bits in the four rows are all
    /// set.
    fn update_phase_and_many(&mut self, i: usize, j: usize, k: usize, l: usize)
        requires
            old(self).shaped(),
            i < 2 * old(self).n,
            j < 2 * old(self).n,
            k < 2 * old(self).n,
            l < 2 * old(self).n,
        ensures
            final(self).same_frame(old(self)),
            final(self).data_array@ == old(self).data_array@,
            forall|slot: int|
                0 <= slot < 64 * old(self).nstrides ==> #[trigger] final(self).sign_cell(slot) == (
                old(self).sign_cell(slot) != (old(self).cell(i as int, slot) && old(self).cell(
                    j as int,
                    slot,
                ) && old(self).cell(k as int, slot) && old(self).cell(l as int, slot))),
    {
        let mut w: usize = 0;
        while w < self.nstrides
            invariant
                old(self).shaped(),
                i < 2 * self.n,
                j < 2 * self.n,
                k < 2 * self.n,
                l < 2 * self.n,
                w <= self.nstrides,
                self.same_frame(old(self)),
                self.data_array@ == old(self).data_array@,
                forall|c: int|
                    0 <= c < w ==> #[trigger] self.phases@[c] ==
                        old(self).phases@[c] ^ (old(self).data_array@[i as int]@[c] &
                        old(self).data_array@[j as int]@[c] &
                        old(self).data_array@[k as int]@[c] & old(self).data_array@[l as int]@[c]),
                forall|c: int|
                    w <= c < self.nstrides ==> #[trigger] self.phases@[c] == old(self).phases@[c],
            decreases self.nstrides - w,
        {
            let v = self.phases[w] ^ (self.data_array[i][w] & self.data_array[j][w]
                & self.data_array[k][w] & self.data_array[l][w]);
            self.phases[w] = v;
            w += 1;
        }
        proof {
            assert forall|slot: int|
                0 <= slot < 64 * old(self).nstrides implies
                    #[trigger] self.sign_cell(slot) ==
                    (old(self).sign_cell(slot) != (old(self).cell(i as int, slot) &&
                    old(self).cell(j as int, slot)
                && old(self).cell(k as int, slot) && old(self).cell(l as int, slot))) by {
                let a = old(self).data_array@[i as int]@[slot / 64];
                let b = old(self).data_array@[j as int]@[slot / 64];
                let c = old(self).data_array@[k as int]@[slot / 64];
                let d = old(self).data_array@[l as int]@[slot / 64];
                let o = (slot % 64) as u64;
                lemma_bit_and(a, b, o);
                lemma_bit_and(a & b, c, o);
                lemma_bit_and(a & b & c, d, o);
                lemma_bit_xor(old(self).phases@[slot / 64], a & b & c & d, o);
            }
        }
    }

    /// Exchanges rows `i` and `j`.
    fn swap_rows(&mut self, i: usize, j: usize)
        requires
            old(self).shaped(),
            i < 2 * old(self).n,
            j < 2 * old(self).n,
            i != j,
        ensures
            final(self).same_frame(old(self)),
            final(self).phases@ == old(self).phases@,
            final(self).data_array@ == old(self).data_array@.update(
                i as int,
                old(self).data_array@[j as int],
            ).update(j as int, old(self).data_array@[i as int]),
    {
        let mut held: Vec<u64> = Vec::new();
        std::mem::swap(&mut held, &mut self.data_array[i]);
        std::mem::swap(&mut held, &mut self.data_array[j]);
        std::mem::swap(&mut held, &mut self.data_array[i]);
        assert(self.data_array@ =~= old(self).data_array@.update(
            i as int,
            old(self).data_array@[j as int],
        ).update(j as int, old(self).data_array@[i as int]));
    }

    /// Conjugates the operators by an H gate on qubit `i`.
    pub fn h(&mut self, i: usize)
        requires
            old(self).wf(),
            i < old(self).n,
        ensures
            final(self).wf(),
            final(self).n == old(self).n,
            final(self)@ == old(self)@.conj(CliffordGate::H(i)),
    {
        let n = self.n;
        self.swap_rows(i, i + n);
        let ghost mid = *self;
        self.update_phase_and(i, i + n);
        proof {
            assert forall|slot: int| 0 <= slot < 64 * self.nstrides implies #[trigger] self.column(
                slot,
            ) == old(self).column(slot).h(i as int) by {
                let a = self.column(slot);
                let b = old(self).column(slot).h(i as int);
                assert(mid.sign_cell(slot) == old(self).sign_cell(slot));
                assert(a.x =~= b.x);
                assert(a.z =~= b.z);
            }
            old(self).lemma_conjugated(self, CliffordGate::H(i));
        }
    }

    /// Conjugates the operators by an S gate on qubit `i`.
    pub fn s(&mut self, i: usize)
        requires
            old(self).wf(),
            i < old(self).n,
        ensures
            final(self).wf(),
            final(self).n == old(self).n,
            final(self)@ == old(self)@.conj(CliffordGate::S(i)),
    {
        let n = self.n;
        self.update_phase_and(i, i + n);
        let ghost mid = *self;
        self.row_op(i, i + n);
        proof {
            assert forall|slot: int| 0 <= slot < 64 * self.nstrides implies #[trigger] self.column(
                slot,
            ) == old(self).column(slot).s(i as int) by {
                let a = self.column(slot);
                let b = old(self).column(slot).s(i as int);
                assert(self.sign_cell(slot) == mid.sign_cell(slot));
                assert(a.x =~= b.x);
                assert(a.z =~= b.z);
            }
            old(self).lemma_conjugated(self, CliffordGate::S(i));
        }
    }

    /// Conjugates the operators by the inverse of an S gate on qubit `i`.
    pub fn sd(&mut self, i: usize)
        requires
            old(self).wf(),
            i < old(self).n,
        ensures
            final(self).wf(),
            final(self).n == old(self).n,
            final(self)@ == old(self)@.conj(CliffordGate::Sd(i)),
    {
        let n = self.n;
        self.row_op(i, i + n);
        let ghost mid = *self;
        self.update_phase_and(i, i + n);
        proof {
            assert forall|slot: int| 0 <= slot < 64 * self.nstrides implies #[trigger] self.column(
                slot,
            ) == old(self).column(slot).sd(i as int) by {
                let a = self.column(slot);
                let b = old(self).column(slot).sd(i as int);
                assert(mid.sign_cell(slot) == old(self).sign_cell(slot));
                assert(mid.cell(i + n, slot) == (old(self).cell(i + n, slot) != old(self).cell(
                    i as int,
                    slot,
                )));
                assert(a.x =~= b.x);
                assert(a.z =~= b.z);
            }
            old(self).lemma_conjugated(self, CliffordGate::Sd(i));
        }
    }

    /// Conjugates the operators by a square root of X on qubit `i`.
    pub fn sqrt_x(&mut self, i: usize)
        requires
            old(self).wf(),
            i < old(self).n,
        ensures
            final(self).wf(),
            final(self).n == old(self).n,
            final(self)@ == old(self)@.conj(CliffordGate::SqrtX(i)),
    {
        let n = self.n;
        self.row_op(i + n, i);
        let ghost mid = *self;
        self.update_phase_and(i, i + n);
        proof {
            assert forall|slot: int| 0 <= slot < 64 * self.nstrides implies #[trigger] self.column(
                slot,
            ) == old(self).column(slot).sqrt_x(i as int) by {
                let a = self.column(slot);
                let b = old(self).column(slot).sqrt_x(i as int);
                assert(mid.sign_cell(slot) == old(self).sign_cell(slot));
                assert(mid.cell(i as int, slot) ==
                    (old(self).cell(i as int, slot) != old(self).cell(i + n, slot)));
                assert(a.x =~= b.x);
                assert(a.z =~= b.z);
            }
            old(self).lemma_conjugated(self, CliffordGate::SqrtX(i));
        }
    }

    /// Conjugates the operators by the inverse of a square root of X on
    /// qubit `i`.
    pub fn sqrt_xd(&mut self, i: usize)
        requires
            old(self).wf(),
            i < old(self).n,
        ensures
            final(self).wf(),
            final(self).n == old(self).n,
            final(self)@ == old(self)@.conj(CliffordGate::SqrtXd(i)),
    {
        let n = self.n;
        self.update_phase_and(i, i + n);
        let ghost mid = *self;
        self.row_op(i + n, i);
        proof {
            assert forall|slot: int| 0 <= slot < 64 * self.nstrides implies #[trigger] self.column(
                slot,
            ) == old(self).column(slot).sqrt_xd(i as int) by {
                let a = self.column(slot);
                let b = old(self).column(slot).sqrt_xd(i as int);
                assert(self.sign_cell(slot) == mid.sign_cell(slot));
                assert(a.x =~= b.x);
                assert(a.z =~= b.z);
            }
            old(self).lemma_conjugated(self, CliffordGate::SqrtXd(i));
        }
    }
    /// Conjugates the operators by a CNOT gate with control `i` and target
    /// `j`.
    pub fn cnot(&mut self, i: usize, j: usize)
        requires
            old(self).wf(),
            i < old(self).n,
            j < old(self).n,
            i != j,
        ensures
            final(self).wf(),
            final(self).n == old(self).n,
            final(self)@ == old(self)@.conj(CliffordGate::CNOT(i, j)),
    {
        let n = self.n;
        self.update_phase_and_many(i, j, i + n, j + n);
        let ghost first = *self;
        self.row_op(j + n, i + n);
        let ghost second = *self;
        self.row_op(i, j);
        let ghost third = *self;
        self.update_phase_and_many(i, j, i + n, j + n);
        proof {
            assert forall|slot: int| 0 <= slot < 64 * self.nstrides implies #[trigger] self.column(
                slot,
            ) == old(self).column(slot).cnot(i as int, j as int) by {
                let a = self.column(slot);
                let b = old(self).column(slot).cnot(i as int, j as int);
                assert(first.sign_cell(slot) == (old(self).sign_cell(slot) != (old(self).cell(
                    i as int,
                    slot,
                ) && old(self).cell(j as int, slot) && old(self).cell(i + n, slot) &&
                    old(self).cell(j + n, slot))));
                assert(third.sign_cell(slot) == first.sign_cell(slot));
                assert(second.cell(i + n, slot) == (old(self).cell(i + n, slot) != old(self).cell(
                    j + n,
                    slot,
                )));
                assert(third.cell(j as int, slot) ==
                    (old(self).cell(j as int, slot) != old(self).cell(i as int, slot)));
                assert(third.cell(i + n, slot) == second.cell(i + n, slot));
                assert(third.cell(i as int, slot) == old(self).cell(i as int, slot));
                assert(third.cell(j + n, slot) == old(self).cell(j + n, slot));
                assert(a.x =~= b.x);
                assert(a.z =~= b.z);
            }
            old(self).lemma_conjugated(self, CliffordGate::CNOT(i, j));
        }
    }

    /// Conjugates the operators by a CZ gate on qubits `i` and `j`.
    pub fn cz(&mut self, i: usize, j: usize)
        requires
            old(self).wf(),
            i < old(self).n,
            j < old(self).n,
            i != j,
        ensures
            final(self).wf(),
            final(self).n == old(self).n,
            final(self)@ == old(self)@.conj(CliffordGate::CZ(i, j)),
    {
        self.h(j);
        self.cnot(i, j);
        self.h(j);
        assert(self@.ops =~= old(self)@.conj(CliffordGate::CZ(i, j)).ops);
    }

    /// Conjugates the operators by a gate.
    pub fn conjugate_with_gate(&mut self, gate: &CliffordGate)
        requires
            old(self).wf(),
            gate.fits(old(self).n as nat),
        ensures
            final(self).wf(),
            final(self).n == old(self).n,
            final(self)@ == old(self)@.conj(*gate),
    {
        match gate {
            CliffordGate::CNOT(i, j) => self.cnot(*i, *j),
            CliffordGate::CZ(i, j) => self.cz(*i, *j),
            CliffordGate::H(i) => self.h(*i),
            CliffordGate::S(i) => self.s(*i),
            CliffordGate::Sd(i) => self.sd(*i),
            CliffordGate::SqrtX(i) => self.sqrt_x(*i),
            CliffordGate::SqrtXd(i) => self.sqrt_xd(*i),
        }
    }

    /// Conjugates the operators by the gates of a circuit, in order.
    pub fn conjugate_with_circuit(&mut self, circuit: &CliffordCircuit)
        requires
            old(self).wf(),
            all_fit(circuit@, old(self).n as nat),
        ensures
            final(self).wf(),
            final(self).n == old(self).n,
            final(self)@ == old(self)@.conj_all(circuit@),
    {
        let mut k: usize = 0;
        assert(self@.ops =~= old(self)@.conj_all(circuit@.take(0)).ops);
        while k < circuit.gates.len()
            invariant
                k <= circuit.gates.len(),
                self.wf(),
                self.n == old(self).n,
                all_fit(circuit@, self.n as nat),
                self@ == old(self)@.conj_all(circuit@.take(k as int)),
            decreases circuit.gates.len() - k,
        {
            let ghost before = self@;
            proof {
                self.lemma_view_wf();
            }
            self.conjugate_with_gate(&circuit.gates[k]);
            proof {
                self.lemma_view_wf();
                let next = circuit@.take(k + 1);
                assert(next.drop_last() == circuit@.take(k as int));
                assert(next.last() == circuit@[k as int]);
                assert(self@.ops =~= old(self)@.conj_all(next).ops);
            }
            k += 1;
        }
        assert(circuit@.take(k as int) == circuit@);
    }
    /// Appends a zero word to every row.
    fn grow(&mut self)
        requires
            old(self).wf(),
            64 * (old(self).nstrides + 1) <= usize::MAX,
        ensures
            final(self).wf(),
            final(self).n == old(self).n,
            final(self).nstrides == old(self).nstrides + 1,
            final(self).noperators == old(self).noperators,
            final(self).start_offset == old(self).start_offset,
            forall|slot: int|
                0 <= slot < 64 * old(self).nstrides ==>
                    #[trigger] final(self).column(slot) == old(self).column(slot),
    {
        let mut r: usize = 0;
        while r < 2 * self.n
            invariant
                old(self).wf(),
                r <= 2 * self.n,
                self.n == old(self).n,
                self.nstrides == old(self).nstrides,
                self.noperators == old(self).noperators,
                self.start_offset == old(self).start_offset,
                self.phases@ == old(self).phases@,
                self.data_array@.len() == 2 * self.n,
                forall|k: int|
                    0 <= k < r ==> #[trigger] self.data_array@[k]@ ==
                        old(self).data_array@[k]@.push(0u64),
                forall|k: int|
                    r <= k < 2 * self.n ==> #[trigger] self.data_array@[k] ==
                        old(self).data_array@[k],
            decreases 2 * self.n - r,
        {
            self.data_array[r].push(0);
            r += 1;
        }
        self.phases.push(0);
        self.nstrides += 1;
        proof {
            assert forall|slot: int| 0 <= slot < 64 * old(self).nstrides implies
                #[trigger] self.column(
                slot,
            ) == old(self).column(slot) by {
                let a = self.column(slot);
                let b = old(self).column(slot);
                assert(a.x =~= b.x);
                assert(a.z =~= b.z);
            }
            assert forall|slot: int|
                0 <= slot < 64 * self.nstrides && !self.occupied(slot) implies
                    #[trigger] self.column(
                slot,
            ) == PauliString::identity(self.n as nat) by {
                if slot < 64 * old(self).nstrides {
                    assert(!old(self).occupied(slot));
                } else {
                    lemma_bit_zero((slot % 64) as u64);
                    let a = self.column(slot);
                    let b = PauliString::identity(self.n as nat);
                    assert(a.x =~= b.x);
                    assert(a.z =~= b.z);
                }
            }
        }
    }

    /// Sets the bit of row `r` in storage slot `slot`.
    fn set_cell(&mut self, r: usize, slot: usize)
        requires
            old(self).shaped(),
            r < 2 * old(self).n,
            slot < 64 * old(self).nstrides,
        ensures
            final(self).same_frame(old(self)),
            final(self).phases@ == old(self).phases@,
            forall|k: int, s: int|
                0 <= k < 2 * old(self).n && 0 <= s < 64 * old(self).nstrides ==>
                    #[trigger] final(self).cell(k, s) == (old(self).cell(k, s) || (k == r && s ==
                    slot)),
    {
        let stride = get_stride(slot);
        let offset = get_offset(slot);
        let v = self.data_array[r][stride] | (1u64 << offset);
        self.data_array[r][stride] = v;
        proof {
            assert forall|k: int, s: int|
                0 <= k < 2 * old(self).n && 0 <= s < 64 * old(self).nstrides implies
                    #[trigger] self.cell(
                k,
                s,
            ) == (old(self).cell(k, s) || (k == r && s == slot)) by {
                if k == r && s / 64 == stride {
                    lemma_bit_set(
                        old(self).data_array@[k]@[s / 64],
                        offset as u64,
                        (s % 64) as u64,
                    );
                }
            }
        }
    }

    /// Sets the sign bit in storage slot `slot`.
    fn set_sign(&mut self, slot: usize)
        requires
            old(self).shaped(),
            slot < 64 * old(self).nstrides,
        ensures
            final(self).same_frame(old(self)),
            final(self).data_array@ == old(self).data_array@,
            forall|s: int|
                0 <= s < 64 * old(self).nstrides ==>
                    #[trigger] final(self).sign_cell(s) == (old(self).sign_cell(s) || s == slot),
    {
        let stride = get_stride(slot);
        let offset = get_offset(slot);
        let v = self.phases[stride] | (1u64 << offset);
        self.phases[stride] = v;
        proof {
            assert forall|s: int| 0 <= s < 64 * old(self).nstrides implies
                #[trigger] self.sign_cell(
                s,
            ) == (old(self).sign_cell(s) || s == slot) by {
                if s / 64 == stride {
                    lemma_bit_set(old(self).phases@[s / 64], offset as u64, (s % 64) as u64);
                }
            }
        }
    }

    /// Makes room for one more operator at the back and returns its storage
    /// slot, which holds the positive identity.
    fn next_slot(&mut self) -> (slot: usize)
        requires
            old(self).wf(),
            old(self).can_grow(),
        ensures
            final(self).wf(),
            final(self).n == old(self).n,
            final(self).noperators == old(self).noperators,
            final(self).start_offset == old(self).start_offset,
            slot == old(self).start_offset + old(self).noperators,
            slot < 64 * final(self).nstrides,
            final(self).nstrides == (if old(self).start_offset + old(self).noperators == 64 * old(
                self,
            ).nstrides {
                old(self).nstrides + 1
            } else {
                old(self).nstrides as int
            }),
            final(self)@.ops == old(self)@.ops,
            final(self).column(slot as int) == PauliString::identity(old(self).n as nat),
    {
        let slot = self.noperators + self.start_offset;
        let stride = get_stride(slot);
        if stride == self.nstrides {
            self.grow();
        }
        assert(self@.ops =~= old(self)@.ops);
        assert(!self.occupied(slot as int));
        slot
    }

    /// After the string `p` has been written into the blank slot behind the
    /// last operator, and the operator count raised, the container holds one
    /// more operator.
    proof fn lemma_pushed(&self, after: &PauliSet, p: PauliString)
        requires
            self.wf(),
            after.shaped(),
            self.start_offset + self.noperators < 64 * self.nstrides,
            after.n == self.n,
            after.nstrides == self.nstrides,
            after.start_offset == self.start_offset,
            after.noperators == self.noperators + 1,
            after.column(self.start_offset + self.noperators) == p,
            forall|slot: int|
                0 <= slot < 64 * self.nstrides && slot != self.start_offset + self.noperators
                    ==> #[trigger] after.column(slot) == self.column(slot),
        ensures
            after.wf(),
            after@.ops == self@.ops.push(p),
            after@.n == self@.n,
    {
        assert forall|slot: int|
            0 <= slot < 64 * after.nstrides && !after.occupied(slot) implies
                #[trigger] after.column(
            slot,
        ) == PauliString::identity(after.n as nat) by {
            assert(!self.occupied(slot));
        }
        assert(after@.ops =~= self@.ops.push(p));
    }

    /// Inserts a new Pauli operator in the set and returns its index. The
    /// operator is read from `axis`, one letter per qubit; a character other
    /// than `X`, `Y` and `Z` stands for the identity.
    pub fn insert(&mut self, axis: &str, phase: bool) -> (index: usize)
        requires
            old(self).wf(),
            old(self).can_grow(),
            forall|q: int|
                old(self).n <= q < axis@.len() ==> axis@[q] != 'X' && axis@[q] != 'Y' && axis@[q]
                    != 'Z',
        ensures
            final(self).wf(),
            final(self).n == old(self).n,
            final(self)@ == old(self)@.push(
                PauliString::from_chars(axis@, phase, old(self).n as nat),
            ),
            old(self).grown(final(self)),
            index == old(self)@.ops.len(),
    {
        let ghost goal = PauliString::from_chars(axis@, phase, self.n as nat);
        let slot = self.next_slot();
        let ghost base = *self;
        proof {
            let id = PauliString::identity(base.n as nat);
            assert(base.column(slot as int).sign == id.sign);
            assert forall|k: int| 0 <= k < 2 * base.n implies !#[trigger] base.cell(
                k,
                slot as int,
            ) by {
                if k < base.n {
                    assert(base.column(slot as int).x[k] == id.x[k]);
                } else {
                    assert(base.column(slot as int).z[k - base.n] == id.z[k - base.n]);
                }
            }
        }
        if phase {
            self.set_sign(slot);
        }
        let ghost signed = *self;
        proof {
            assert forall|k: int, s: int|
                0 <= k < 2 * base.n && 0 <= s < 64 * base.nstrides implies #[trigger] self.cell(
                k,
                s,
            ) == base.cell(k, s) by {}
        }
        let mut index: usize = 0;
        for pauli in it: axis.chars()
            invariant
                it.seq() == axis@,
                index == if it.index() < base.n {
                    it.index() as int
                } else {
                    base.n as int
                },
                base.shaped(),
                self.same_frame(&base),
                slot < 64 * base.nstrides,
                forall|q: int|
                    base.n <= q < axis@.len() ==> axis@[q] != 'X' && axis@[q] != 'Y' && axis@[q]
                        != 'Z',
                self.phases@ == signed.phases@,
                forall|k: int, s: int|
                    0 <= k < 2 * base.n && 0 <= s < 64 * base.nstrides && s != slot
                        ==> #[trigger] self.cell(k, s) == base.cell(k, s),
                forall|k: int|
                    0 <= k < 2 * base.n ==> #[trigger] self.cell(k, slot as int) == (if k
                        < base.n {
                        k < index && crate::symplectic::char_x(axis@[k])
                    } else {
                        k - base.n < index && crate::symplectic::char_z(axis@[k - base.n])
                    }),
        {
            let ghost before = *self;
            match pauli {
                'Z' => {
                    self.set_cell(index + self.n, slot);
                },
                'X' => {
                    self.set_cell(index, slot);
                },
                'Y' => {
                    self.set_cell(index, slot);
                    let ghost half = *self;
                    self.set_cell(index + self.n, slot);
                    assert forall|k: int, s: int|
                        0 <= k < 2 * base.n && 0 <= s < 64 * base.nstrides implies
                            #[trigger] self.cell(
                        k,
                        s,
                    ) == (before.cell(k, s) || ((k == index || k == index + base.n) && s
                        == slot)) by {
                        assert(half.cell(k, s) == (before.cell(k, s) || (k == index && s
                            == slot)));
                    }
                },
                _ => {},
            }
            if index < self.n {
                index += 1;
            }
        }
        let ghost filled = *self;
        self.noperators += 1;
        proof {
            assert forall|s: int| 0 <= s < 64 * base.nstrides implies #[trigger] self.sign_cell(
                s,
            ) == (base.sign_cell(s) || (phase && s == slot)) by {
                assert(self.sign_cell(s) == signed.sign_cell(s));
            }
            assert forall|k: int, s: int|
                0 <= k < 2 * base.n && 0 <= s < 64 * base.nstrides implies #[trigger] self.cell(
                k,
                s,
            ) == filled.cell(k, s) by {}
            assert(index == if axis@.len() < base.n {
                axis@.len() as int
            } else {
                base.n as int
            });
            let a = self.column(slot as int);
            assert forall|q: int| 0 <= q < base.n implies a.x[q] == goal.x[q] by {
                assert(a.x[q] == filled.cell(q, slot as int));
            }
            assert forall|q: int| 0 <= q < base.n implies a.z[q] == goal.z[q] by {
                assert(a.z[q] == filled.cell(q + base.n, slot as int));
            }
            assert(a.x =~= goal.x);
            assert(a.z =~= goal.z);
            assert forall|s: int| 0 <= s < 64 * base.nstrides && s != slot implies
                #[trigger] self.column(
                s,
            ) == base.column(s) by {
                let a = self.column(s);
                let b = base.column(s);
                assert(a.x =~= b.x);
                assert(a.z =~= b.z);
            }
            base.lemma_pushed(self, goal);
        }
        self.noperators - 1
    }
    /// Inserts a new Pauli operator described as a vector of bool in the set
    /// and returns its index: the first `n` entries of `axis` are the X bits
    /// and the next `n` the Z bits.
    pub fn insert_vec_bool(&mut self, axis: &Vec<bool>, phase: bool) -> (index: usize)
        requires
            old(self).wf(),
            old(self).can_grow(),
            forall|q: int| 2 * old(self).n <= q < axis@.len() ==> !axis@[q],
        ensures
            final(self).wf(),
            final(self).n == old(self).n,
            final(self)@ == old(self)@.push(
                PauliString::from_bits(axis@, phase, old(self).n as nat),
            ),
            old(self).grown(final(self)),
            index == old(self)@.ops.len(),
    {
        let ghost goal = PauliString::from_bits(axis@, phase, self.n as nat);
        let slot = self.next_slot();
        let ghost base = *self;
        proof {
            let id = PauliString::identity(base.n as nat);
            assert(base.column(slot as int).sign == id.sign);
            assert forall|k: int| 0 <= k < 2 * base.n implies !#[trigger] base.cell(
                k,
                slot as int,
            ) by {
                if k < base.n {
                    assert(base.column(slot as int).x[k] == id.x[k]);
                } else {
                    assert(base.column(slot as int).z[k - base.n] == id.z[k - base.n]);
                }
            }
        }
        if phase {
            self.set_sign(slot);
        }
        let ghost signed = *self;
        proof {
            assert forall|k: int, s: int|
                0 <= k < 2 * base.n && 0 <= s < 64 * base.nstrides implies #[trigger] self.cell(
                k,
                s,
            ) == base.cell(k, s) by {}
        }
        let mut index: usize = 0;
        while index < axis.len()
            invariant
                index <= axis@.len(),
                base.shaped(),
                self.same_frame(&base),
                slot < 64 * base.nstrides,
                forall|q: int| 2 * base.n <= q < axis@.len() ==> !axis@[q],
                self.phases@ == signed.phases@,
                forall|k: int, s: int|
                    0 <= k < 2 * base.n && 0 <= s < 64 * base.nstrides && s != slot
                        ==> #[trigger] self.cell(k, s) == base.cell(k, s),
                forall|k: int|
                    0 <= k < 2 * base.n ==> #[trigger] self.cell(k, slot as int) == (k < index
                        && axis@[k]),
            decreases axis@.len() - index,
        {
            if axis[index] {
                self.set_cell(index, slot);
            }
            index += 1;
        }
        let ghost filled = *self;
        self.noperators += 1;
        proof {
            assert forall|s: int| 0 <= s < 64 * base.nstrides implies #[trigger] self.sign_cell(
                s,
            ) == (base.sign_cell(s) || (phase && s == slot)) by {
                assert(self.sign_cell(s) == signed.sign_cell(s));
            }
            assert forall|k: int, s: int|
                0 <= k < 2 * base.n && 0 <= s < 64 * base.nstrides implies #[trigger] self.cell(
                k,
                s,
            ) == filled.cell(k, s) by {}
            let a = self.column(slot as int);
            assert forall|q: int| 0 <= q < base.n implies a.x[q] == goal.x[q] by {
                assert(a.x[q] == filled.cell(q, slot as int));
            }
            assert forall|q: int| 0 <= q < base.n implies a.z[q] == goal.z[q] by {
                assert(a.z[q] == filled.cell(q + base.n, slot as int));
            }
            assert(a.x =~= goal.x);
            assert(a.z =~= goal.z);
            assert forall|s: int| 0 <= s < 64 * base.nstrides && s != slot implies
                #[trigger] self.column(
                s,
            ) == base.column(s) by {
                let a = self.column(s);
                let b = base.column(s);
                assert(a.x =~= b.x);
                assert(a.z =~= b.z);
            }
            base.lemma_pushed(self, goal);
        }
        self.noperators - 1
    }

    /// Clears the data of the Pauli set: no operator is left, and the
    /// storage is kept.
    pub fn clear(&mut self)
        requires
            old(self).wf(),
        ensures
            final(self).wf(),
            final(self).n == old(self).n,
            final(self)@ == old(self)@.cleared(),
            final(self).start_offset == 0,
            final(self).noperators == 0,
            final(self).nstrides == old(self).nstrides,
    {
        let mut j: usize = 0;
        while j < self.nstrides
            invariant
                old(self).wf(),
                j <= self.nstrides,
                self.same_frame(old(self)),
                forall|r: int, c: int|
                    0 <= r < 2 * self.n && 0 <= c < j ==> #[trigger] self.data_array@[r]@[c] == 0,
                forall|c: int| 0 <= c < j ==> #[trigger] self.phases@[c] == 0,
            decreases self.nstrides - j,
        {
            let mut i: usize = 0;
            while i < 2 * self.n
                invariant
                    old(self).wf(),
                    j < self.nstrides,
                    i <= 2 * self.n,
                    self.same_frame(old(self)),
                    forall|r: int, c: int|
                        0 <= r < 2 * self.n && 0 <= c < j ==> #[trigger] self.data_array@[r]@[c]
                            == 0,
                    forall|r: int| 0 <= r < i ==> #[trigger] self.data_array@[r]@[j as int] == 0,
                    forall|c: int| 0 <= c < j ==> #[trigger] self.phases@[c] == 0,
                decreases 2 * self.n - i,
            {
                self.data_array[i][j] = 0;
                i += 1;
            }
            self.phases[j] = 0;
            j += 1;
        }
        self.noperators = 0;
        self.start_offset = 0;
        proof {
            assert forall|slot: int| 0 <= slot < 64 * self.nstrides implies #[trigger] self.column(
                slot,
            ) == PauliString::identity(self.n as nat) by {
                lemma_bit_zero((slot % 64) as u64);
                let a = self.column(slot);
                let b = PauliString::identity(self.n as nat);
                assert(a.x =~= b.x);
                assert(a.z =~= b.z);
            }
            assert(self@.ops =~= old(self)@.cleared().ops);
        }
    }

    /// Clears the bit of row `r` in storage slot `slot`.
    fn clear_cell(&mut self, r: usize, slot: usize)
        requires
            old(self).shaped(),
            r < 2 * old(self).n,
            slot < 64 * old(self).nstrides,
        ensures
            final(self).same_frame(old(self)),
            final(self).phases@ == old(self).phases@,
            forall|k: int, s: int|
                0 <= k < 2 * old(self).n && 0 <= s < 64 * old(self).nstrides
                    ==> #[trigger] final(self).cell(k, s) == (old(self).cell(k, s) && !(k == r
                    && s == slot)),
    {
        let stride = get_stride(slot);
        let offset = get_offset(slot);
        let v = self.data_array[r][stride] & !(1u64 << offset);
        self.data_array[r][stride] = v;
        proof {
            assert forall|k: int, s: int|
                0 <= k < 2 * old(self).n && 0 <= s < 64 * old(self).nstrides implies
                    #[trigger] self.cell(
                k,
                s,
            ) == (old(self).cell(k, s) && !(k == r && s == slot)) by {
                if k == r && s / 64 == stride {
                    lemma_bit_clear(
                        old(self).data_array@[k]@[s / 64],
                        offset as u64,
                        (s % 64) as u64,
                    );
                }
            }
        }
    }

    /// Clears the sign bit in storage slot `slot`.
    fn clear_sign(&mut self, slot: usize)
        requires
            old(self).shaped(),
            slot < 64 * old(self).nstrides,
        ensures
            final(self).same_frame(old(self)),
            final(self).data_array@ == old(self).data_array@,
            forall|s: int|
                0 <= s < 64 * old(self).nstrides ==>
                    #[trigger] final(self).sign_cell(s) == (old(self).sign_cell(s) && s != slot),
    {
        let stride = get_stride(slot);
        let offset = get_offset(slot);
        let v = self.phases[stride] & !(1u64 << offset);
        self.phases[stride] = v;
        proof {
            assert forall|s: int| 0 <= s < 64 * old(self).nstrides implies
                #[trigger] self.sign_cell(
                s,
            ) == (old(self).sign_cell(s) && s != slot) by {
                if s / 64 == stride {
                    lemma_bit_clear(old(self).phases@[s / 64], offset as u64, (s % 64) as u64);
                }
            }
        }
    }

    /// Pops the first operator of the set.
    pub fn pop(&mut self)
        requires
            old(self).wf(),
            old(self)@.ops.len() > 0,
        ensures
            final(self).wf(),
            final(self).n == old(self).n,
            final(self)@ == old(self)@.pop(),
            final(self).start_offset == old(self).start_offset + 1,
            final(self).noperators == old(self).noperators - 1,
            final(self).nstrides == old(self).nstrides,
    {
        let slot = self.start_offset;
        let mut i: usize = 0;
        while i < 2 * self.n
            invariant
                old(self).wf(),
                i <= 2 * self.n,
                self.same_frame(old(self)),
                slot == self.start_offset,
                slot < 64 * self.nstrides,
                self.phases@ == old(self).phases@,
                forall|k: int, s: int|
                    0 <= k < 2 * self.n && 0 <= s < 64 * self.nstrides ==> #[trigger] self.cell(
                        k,
                        s,
                    ) == (old(self).cell(k, s) && !(k < i && s == slot)),
            decreases 2 * self.n - i,
        {
            self.clear_cell(i, slot);
            i += 1;
        }
        let ghost wiped = *self;
        self.clear_sign(slot);
        let ghost unsigned = *self;
        self.start_offset += 1;
        self.noperators -= 1;
        proof {
            assert forall|k: int, s: int|
                0 <= k < 2 * self.n && 0 <= s < 64 * self.nstrides implies #[trigger] self.cell(
                k,
                s,
            ) == (old(self).cell(k, s) && s != slot) by {
                assert(self.cell(k, s) == wiped.cell(k, s));
            }
            assert forall|s: int| 0 <= s < 64 * self.nstrides implies #[trigger] self.sign_cell(s)
                == (old(self).sign_cell(s) && s != slot) by {
                assert(self.sign_cell(s) == unsigned.sign_cell(s));
                assert(wiped.sign_cell(s) == old(self).sign_cell(s));
            }
            assert forall|s: int|
                0 <= s < 64 * self.nstrides && !self.occupied(s) implies #[trigger] self.column(s)
                == PauliString::identity(self.n as nat) by {
                let a = self.column(s);
                let b = PauliString::identity(self.n as nat);
                if s != slot {
                    assert(!old(self).occupied(s));
                    let c = old(self).column(s);
                    assert(a.x =~= c.x);
                    assert(a.z =~= c.z);
                } else {
                    assert(a.x =~= b.x);
                    assert(a.z =~= b.z);
                }
            }
            assert forall|s: int| 0 <= s < 64 * self.nstrides && s != slot implies
                #[trigger] self.column(
                s,
            ) == old(self).column(s) by {
                let a = self.column(s);
                let c = old(self).column(s);
                assert(a.x =~= c.x);
                assert(a.z =~= c.z);
            }
            assert(self@.ops =~= old(self)@.pop().ops);
        }
    }
    /// What the bits of an operator are in the storage.
    proof fn lemma_op_bits(&self, index: int)
        requires
            self.wf(),
            0 <= index < self.noperators,
        ensures
            self@.ops[index] == self.column(self.start_offset + index),
            self@.ops[index].wf(self.n as nat),
            self@.ops[index].sign == self.sign_cell(self.start_offset + index),
            forall|q: int|
                0 <= q < self.n ==> #[trigger] self@.ops[index].x[q] == self.cell(
                    q,
                    self.start_offset + index,
                ),
            forall|q: int|
                0 <= q < self.n ==> #[trigger] self@.ops[index].z[q] == self.cell(
                    q + self.n,
                    self.start_offset + index,
                ),
    {
    }

    /// Reads the bit of row `r` in storage slot `slot`.
    fn read_cell(&self, r: usize, slot: usize) -> (b: bool)
        requires
            self.shaped(),
            r < 2 * self.n,
            slot < 64 * self.nstrides,
        ensures
            b == self.cell(r as int, slot as int),
    {
        test_bit(self.data_array[r][get_stride(slot)], get_offset(slot))
    }

    /// Reads the sign bit in storage slot `slot`.
    fn read_sign(&self, slot: usize) -> (b: bool)
        requires
            self.shaped(),
            slot < 64 * self.nstrides,
        ensures
            b == self.sign_cell(slot as int),
    {
        test_bit(self.phases[get_stride(slot)], get_offset(slot))
    }

    /// Gets the operator at index `operator_index` as a pair of its sign and
    /// its letters.
    pub fn get(&self, operator_index: usize) -> (r: (bool, String))
        requires
            self.wf(),
            operator_index < self@.ops.len(),
        ensures
            r.0 == self@.ops[operator_index as int].sign,
            r.1@ == self@.ops[operator_index as int].chars(),
    {
        proof {
            self.lemma_op_bits(operator_index as int);
            reveal_strlit("X");
            reveal_strlit("Y");
            reveal_strlit("Z");
            reveal_strlit("I");
        }
        let ghost op = self@.ops[operator_index as int];
        let slot = operator_index + self.start_offset;
        let mut output = String::new();
        let mut i: usize = 0;
        while i < self.n
            invariant
                self.shaped(),
                i <= self.n,
                slot < 64 * self.nstrides,
                op.wf(self.n as nat),
                forall|q: int| 0 <= q < self.n ==> #[trigger] op.x[q] == self.cell(q, slot as int),
                forall|q: int|
                    0 <= q < self.n ==> #[trigger] op.z[q] == self.cell(q + self.n, slot as int),
                output@.len() == i,
                forall|q: int| 0 <= q < i ==> #[trigger] output@[q] == letter_char(op.letter(q)),
                "X"@ == seq!['X'],
                "Y"@ == seq!['Y'],
                "Z"@ == seq!['Z'],
                "I"@ == seq!['I'],
            decreases self.n - i,
        {
            let x = self.read_cell(i, slot);
            let z = self.read_cell(i + self.n, slot);
            assert(x == op.x[i as int] && z == op.z[i as int]);
            if x && !z {
                output.append("X");
            } else if !x && z {
                output.append("Z");
            } else if x && z {
                output.append("Y");
            } else {
                output.append("I");
            }
            i += 1;
        }
        assert(output@ =~= op.chars());
        (self.read_sign(slot), output)
    }

    /// Gets the operator at index `operator_index` as a pair of its sign and
    /// its bits: the X bits of the qubits, then their Z bits.
    pub fn get_as_vec_bool(&self, operator_index: usize) -> (r: (bool, Vec<bool>))
        requires
            self.wf(),
            operator_index < self@.ops.len(),
        ensures
            r.0 == self@.ops[operator_index as int].sign,
            r.1@ == self@.ops[operator_index as int].bits(),
    {
        proof {
            self.lemma_op_bits(operator_index as int);
        }
        let ghost op = self@.ops[operator_index as int];
        let slot = operator_index + self.start_offset;
        let mut output: Vec<bool> = Vec::new();
        let mut i: usize = 0;
        while i < 2 * self.n
            invariant
                self.shaped(),
                i <= 2 * self.n,
                slot < 64 * self.nstrides,
                op.wf(self.n as nat),
                forall|q: int| 0 <= q < self.n ==> #[trigger] op.x[q] == self.cell(q, slot as int),
                forall|q: int|
                    0 <= q < self.n ==> #[trigger] op.z[q] == self.cell(q + self.n, slot as int),
                output@.len() == i,
                forall|q: int| 0 <= q < i ==> #[trigger] output@[q] == op.bits()[q],
            decreases 2 * self.n - i,
        {
            let b = self.read_cell(i, slot);
            proof {
                if i < self.n {
                    assert(b == op.x[i as int]);
                } else {
                    assert(b == op.z[i - self.n]);
                }
            }
            output.push(b);
            i += 1;
        }
        assert(output@ =~= op.bits());
        (self.read_sign(slot), output)
    }

    /// Returns the support size of the operator, that is the number of its
    /// letters that are not I.
    pub fn support_size(&self, index: usize) -> (r: usize)
        requires
            self.wf(),
            index < self@.ops.len(),
        ensures
            r == self@.ops[index as int].support_size(),
            r <= self.n,
    {
        proof {
            self.lemma_op_bits(index as int);
        }
        let ghost op = self@.ops[index as int];
        let slot = index + self.start_offset;
        let mut count: usize = 0;
        let mut i: usize = 0;
        while i < self.n
            invariant
                self.shaped(),
                i <= self.n,
                slot < 64 * self.nstrides,
                op.wf(self.n as nat),
                forall|q: int| 0 <= q < self.n ==> #[trigger] op.x[q] == self.cell(q, slot as int),
                forall|q: int|
                    0 <= q < self.n ==> #[trigger] op.z[q] == self.cell(q + self.n, slot as int),
                count == op.support_below(i as nat),
                count <= i,
            decreases self.n - i,
        {
            let x = self.read_cell(i, slot);
            let z = self.read_cell(i + self.n, slot);
            assert(x == op.x[i as int] && z == op.z[i as int]);
            if x || z {
                count += 1;
            }
            i += 1;
        }
        count
    }

    /// Returns the support of the operator: the qubits on which its letter is
    /// not I, in ascending order.
    pub fn get_support(&self, index: usize) -> (r: Vec<usize>)
        requires
            self.wf(),
            index < self@.ops.len(),
        ensures
            r@ == self@.ops[index as int].support(),
    {
        proof {
            self.lemma_op_bits(index as int);
        }
        let ghost op = self@.ops[index as int];
        let slot = index + self.start_offset;
        let mut support: Vec<usize> = Vec::new();
        let mut i: usize = 0;
        while i < self.n
            invariant
                self.shaped(),
                i <= self.n,
                slot < 64 * self.nstrides,
                op.wf(self.n as nat),
                forall|q: int| 0 <= q < self.n ==> #[trigger] op.x[q] == self.cell(q, slot as int),
                forall|q: int|
                    0 <= q < self.n ==> #[trigger] op.z[q] == self.cell(q + self.n, slot as int),
                support@ == op.support_list(i as nat),
            decreases self.n - i,
        {
            let x = self.read_cell(i, slot);
            let z = self.read_cell(i + self.n, slot);
            assert(x == op.x[i as int] && z == op.z[i as int]);
            if x || z {
                support.push(i);
            }
            i += 1;
        }
        support
    }

    /// Checks if two operators in the set commute.
    pub fn commute(&self, i: usize, j: usize) -> (r: bool)
        requires
            self.wf(),
            i < self@.ops.len(),
            j < self@.ops.len(),
        ensures
            r == self@.ops[i as int].commutes(self@.ops[j as int]),
    {
        proof {
            self.lemma_op_bits(i as int);
            self.lemma_op_bits(j as int);
        }
        let ghost a = self@.ops[i as int];
        let ghost b = self@.ops[j as int];
        let (_, vec1) = self.get_as_vec_bool(i);
        let (_, vec2) = self.get_as_vec_bool(j);
        let mut count_diff: usize = 0;
        let mut k: usize = 0;
        while k < self.n
            invariant
                2 * self.n <= usize::MAX,
                k <= self.n,
                a.wf(self.n as nat),
                b.wf(self.n as nat),
                vec1@ == a.bits(),
                vec2@ == b.bits(),
                count_diff <= k,
                (count_diff % 2 == 1) == a.product_below(b, k as nat),
            decreases self.n - k,
        {
            assert(vec1@[k as int] == a.x[k as int]);
            assert(vec1@[k + self.n] == a.z[k as int]);
            assert(vec2@[k as int] == b.x[k as int]);
            assert(vec2@[k + self.n] == b.z[k as int]);
            if (vec1[k] && vec2[k + self.n]) != (vec1[k + self.n] && vec2[k]) {
                count_diff += 1;
            }
            k += 1;
        }
        (count_diff % 2) == 0
    }

    /// Exchanges qubits `i` and `j` in every operator.
    pub fn swap_qbits(&mut self, i: usize, j: usize)
        requires
            old(self).wf(),
            i < old(self).n,
            j < old(self).n,
        ensures
            final(self).wf(),
            final(self).n == old(self).n,
            final(self)@ == (PauliSetView {
                ops: old(self)@.ops.map_values(|p: PauliString| p.swap(i as int, j as int)),
                ..old(self)@
            }),
    {
        if i != j {
            let n = self.n;
            self.swap_rows(i, j);
            self.swap_rows(n + i, n + j);
        }
        proof {
            assert forall|slot: int| 0 <= slot < 64 * self.nstrides implies #[trigger] self.column(
                slot,
            ) == old(self).column(slot).swap(i as int, j as int) by {
                let a = self.column(slot);
                let b = old(self).column(slot).swap(i as int, j as int);
                assert(self.sign_cell(slot) == old(self).sign_cell(slot));
                assert(a.x =~= b.x);
                assert(a.z =~= b.z);
            }
            assert forall|slot: int|
                0 <= slot < 64 * self.nstrides && !self.occupied(slot) implies
                    #[trigger] self.column(
                slot,
            ) == PauliString::identity(self.n as nat) by {
                assert(!old(self).occupied(slot));
                let a = old(self).column(slot);
                let b = a.swap(i as int, j as int);
                assert(b.x =~= a.x);
                assert(b.z =~= a.z);
            }
            assert(self@.ops =~= old(self)@.ops.map_values(
                |p: PauliString| p.swap(i as int, j as int),
            ));
        }
    }

    /// The string in slot `slot` is not I on qubit `q`.
    pub closed spec fn active(&self, q: int, slot: int) -> bool {
        self.cell(q, slot) || self.cell(q + self.n, slot)
    }

    /// Counts the operators, from the oldest on, that come before the first
    /// operator with a letter other than I on qubit `qbit`; all the operators
    /// are counted if there is no such operator. The rows are scanned a word
    /// at a time, and the freed slots at the front are left out of the count.
    pub fn count_id(&self, qbit: usize) -> (r: usize)
        requires
            self.wf(),
            qbit < self.n,
        ensures
            r == self@.count_id(qbit as int),
            r <= self@.ops.len(),
    {
        proof {
            lemma_leading_ids_is_first(self@.ops, qbit as int);
        }
        let mut count: usize = 0;
        let mut w: usize = 0;
        while w < self.nstrides
            invariant
                self.wf(),
                qbit < self.n,
                w <= self.nstrides,
                count == 64 * w,
                forall|s: int| 0 <= s < 64 * w ==> !#[trigger] self.active(qbit as int, s),
            decreases self.nstrides - w,
        {
            let value = self.data_array[qbit][w] | self.data_array[qbit + self.n][w];
            proof {
                lemma_trailing_zeros(value);
                assert forall|s: int| 64 * w <= s < 64 * (w + 1) implies #[trigger] self.active(
                    qbit as int,
                    s,
                ) == bit(value, (s % 64) as u64) by {
                    lemma_bit_or(
                        self.data_array@[qbit as int]@[w as int],
                        self.data_array@[qbit + self.n]@[w as int],
                        (s % 64) as u64,
                    );
                }
            }
            if value == 0 {
                count += 64;
            } else {
                let t = value.trailing_zeros() as usize;
                proof {
                    let first = 64 * w + t;
                    assert(bit(value, (first % 64) as u64));
                    assert(self.active(qbit as int, first));
                    assert forall|s: int| 0 <= s < first implies !#[trigger] self.active(
                        qbit as int,
                        s,
                    ) by {
                        if s >= 64 * w {
                            assert(!bit(value, (s % 64) as u64));
                        }
                    }
                    self.lemma_first_active(qbit as int, first);
                }
                return count + t - self.start_offset;
            }
            w += 1;
        }
        proof {
            self.lemma_none_active(qbit as int);
        }
        self.noperators
    }

    /// If slot `first` is the first whose string is not I on `q`, it holds an
    /// operator, and the count of identities on `q` is its index.
    proof fn lemma_first_active(&self, q: int, first: int)
        requires
            self.wf(),
            0 <= q < self.n,
            0 <= first < 64 * self.nstrides,
            self.active(q, first),
            forall|s: int| 0 <= s < first ==> !#[trigger] self.active(q, s),
        ensures
            self.start_offset <= first < self.start_offset + self.noperators,
            self@.count_id(q) == first - self.start_offset,
    {
        let id = PauliString::identity(self.n as nat);
        if !self.occupied(first) {
            assert(self.column(first) == id);
            assert(self.column(first).x[q] == id.x[q]);
            assert(self.column(first).z[q] == id.z[q]);
        }
        let k = first - self.start_offset;
        let ops = self@.ops;
        assert forall|i: int| 0 <= i < k implies (#[trigger] ops[i]).is_id(q) by {
            assert(!self.active(q, self.start_offset + i));
        }
        assert(!ops[k].is_id(q));
        lemma_leading_ids(ops, q, k);
    }

    /// If no string in the storage is other than I on `q`, the count of
    /// identities on `q` is the number of operators.
    proof fn lemma_none_active(&self, q: int)
        requires
            self.wf(),
            0 <= q < self.n,
            forall|s: int| 0 <= s < 64 * self.nstrides ==> !#[trigger] self.active(q, s),
        ensures
            self@.count_id(q) == self.noperators,
    {
        let ops = self@.ops;
        assert forall|i: int| 0 <= i < ops.len() implies (#[trigger] ops[i]).is_id(q) by {
            assert(!self.active(q, self.start_offset + i));
        }
        lemma_leading_ids(ops, q, ops.len() as int);
    }
    /// Returns a copy of the set.
    pub fn copy(&self) -> (r: Self)
        requires
            self.wf(),
        ensures
            r.wf(),
            r.n == self.n,
            r@ == self@,
    {
        let mut data_array: Vec<Vec<u64>> = Vec::new();
        let mut i: usize = 0;
        while i < 2 * self.n
            invariant
                self.shaped(),
                i <= 2 * self.n,
                data_array@.len() == i,
                forall|r: int| 0 <= r < i ==> (#[trigger] data_array@[r])@ == self.data_array@[r]@,
            decreases 2 * self.n - i,
        {
            let row = self.data_array[i].clone();
            assert(row@ =~= self.data_array@[i as int]@);
            data_array.push(row);
            i += 1;
        }
        let phases = self.phases.clone();
        assert(phases@ =~= self.phases@);
        let r = Self {
            n: self.n,
            nstrides: self.nstrides,
            noperators: self.noperators,
            start_offset: self.start_offset,
            data_array,
            phases,
        };
        proof {
            assert forall|slot: int| 0 <= slot < 64 * self.nstrides implies #[trigger] r.column(
                slot,
            ) == self.column(slot) by {
                let a = r.column(slot);
                let b = self.column(slot);
                assert(a.x =~= b.x);
                assert(a.z =~= b.z);
            }
            assert forall|slot: int|
                0 <= slot < 64 * r.nstrides && !r.occupied(slot) implies #[trigger] r.column(slot)
                == PauliString::identity(r.n as nat) by {
                assert(!self.occupied(slot));
            }
            assert(r@.ops =~= self@.ops);
        }
        r
    }

    /// Constructs the set of the operators of `data`, all positive, on as
    /// many qubits as the first of them has letters.
    pub fn from_slice(data: &[String]) -> (r: Self)
        requires
            data@.len() + 64 <= usize::MAX,
            data@.len() > 0 ==> 2 * data@[0]@.len() <= usize::MAX,
            forall|k: int, q: int|
                0 <= k < data@.len() && data@[0]@.len() <= q < data@[k]@.len() ==> {
                    let c = #[trigger] data@[k]@[q];
                    c != 'X' && c != 'Y' && c != 'Z'
                },
        ensures
            r.wf(),
            r@.n == (if data@.len() == 0 {
                0
            } else {
                data@[0]@.len()
            }),
            r.start_offset == 0,
            r.nstrides == (data@.len() + 63) / 64,
            r@.ops == Seq::new(
                data@.len(),
                |k: int| PauliString::from_chars(data@[k]@, false, r@.n),
            ),
    {
        if data.len() == 0 {
            let r = Self::new(0);
            assert(r@.ops =~= Seq::new(
                data@.len(),
                |k: int| PauliString::from_chars(data@[k]@, false, r@.n),
            ));
            return r;
        }
        let n = data[0].as_str().unicode_len();
        let mut pset = Self::new(n);
        let mut k: usize = 0;
        while k < data.len()
            invariant
                k <= data@.len(),
                data@.len() + 64 <= usize::MAX,
                n == data@[0]@.len(),
                forall|k: int, q: int|
                    0 <= k < data@.len() && data@[0]@.len() <= q < data@[k]@.len() ==> {
                        let c = #[trigger] data@[k]@[q];
                        c != 'X' && c != 'Y' && c != 'Z'
                    },
                pset.wf(),
                pset.n == n,
                pset@.n == n,
                pset.start_offset == 0,
                pset.noperators == k,
                pset.nstrides == (k + 63) / 64,
                pset@.ops == Seq::new(
                    k as nat,
                    |j: int| PauliString::from_chars(data@[j]@, false, n as nat),
                ),
            decreases data@.len() - k,
        {
            let ghost before = pset@;
            assert forall|q: int| pset.n <= q < data@[k as int]@.len() implies data@[k as int]@[q]
                != 'X' && data@[k as int]@[q] != 'Y' && data@[k as int]@[q] != 'Z' by {
                let c = data@[k as int]@[q];
            }
            pset.insert(data[k].as_str(), false);
            k += 1;
            assert(pset@.ops =~= Seq::new(
                k as nat,
                |j: int| PauliString::from_chars(data@[j]@, false, n as nat),
            ));
        }
        pset
    }

    /// Sorts the set by support size. The sort is stable: operators of equal
    /// support size keep their order.
    pub fn support_size_sort(&mut self)
        requires
            old(self).wf(),
        ensures
            final(self).wf(),
            final(self).n == old(self).n,
            final(self)@ == old(self)@.sorted(),
            final(self).start_offset == 0,
            final(self).noperators == old(self).noperators,
            final(self).nstrides == old(self).nstrides,
    {
        let m = self.noperators;
        let n = self.n;
        let ghost before = self@;
        let ghost keys = before.support_keys();
        // The operators and their support sizes, read out of the rows.
        let mut transposed: Vec<(bool, Vec<bool>)> = Vec::new();
        let mut sizes: Vec<usize> = Vec::new();
        let mut i: usize = 0;
        while i < m
            invariant
                self.wf(),
                self@ == before,
                m == before.ops.len(),
                n == self.n,
                i <= m,
                transposed@.len() == i,
                sizes@.len() == i,
                forall|j: int|
                    0 <= j < i ==> (#[trigger] transposed@[j]).0 == before.ops[j].sign
                        && transposed@[j].1@ == before.ops[j].bits(),
                forall|j: int|
                    0 <= j < i ==> #[trigger] sizes@[j] == before.ops[j].support_size()
                        && sizes@[j] <= n,
            decreases m - i,
        {
            transposed.push(self.get_as_vec_bool(i));
            sizes.push(self.support_size(i));
            i += 1;
        }
        proof {
            self.lemma_view_wf();
        }
        let ghost strides = self.nstrides;
        self.clear();
        proof {
            assert(order_until(keys, 0, 0) =~= Seq::<int>::empty());
            assert(self@.ops =~= order_until(keys, 0, 0).map_values(|j: int| before.ops[j]));
        }
        let mut s: usize = 0;
        while s <= n
            invariant
                self.wf(),
                before.wf(),
                before.n == n,
                2 * n <= usize::MAX,
                m <= 64 * strides,
                self.start_offset == 0,
                self.nstrides == strides,
                self.noperators == order_until(keys, s as nat, 0).len(),
                m == before.ops.len(),
                keys == before.support_keys(),
                n == self.n,
                s <= n + 1,
                transposed@.len() == m,
                sizes@.len() == m,
                forall|j: int|
                    0 <= j < m ==> (#[trigger] transposed@[j]).0 == before.ops[j].sign
                        && transposed@[j].1@ == before.ops[j].bits(),
                forall|j: int|
                    0 <= j < m ==> #[trigger] sizes@[j] == before.ops[j].support_size()
                        && sizes@[j] <= n,
                self@ == (PauliSetView {
                    ops: order_until(keys, s as nat, 0).map_values(|j: int| before.ops[j]),
                    ..before
                }),
            decreases n + 1 - s,
        {
            let mut i: usize = 0;
            while i < m
                invariant
                    self.wf(),
                    before.wf(),
                    before.n == n,
                    m <= 64 * strides,
                    self.start_offset == 0,
                    self.nstrides == strides,
                    self.noperators == order_until(keys, s as nat, i as nat).len(),
                    m == before.ops.len(),
                    keys == before.support_keys(),
                    n == self.n,
                    s <= n,
                    i <= m,
                    transposed@.len() == m,
                    sizes@.len() == m,
                    forall|j: int|
                        0 <= j < m ==> (#[trigger] transposed@[j]).0 == before.ops[j].sign
                            && transposed@[j].1@ == before.ops[j].bits(),
                    forall|j: int|
                        0 <= j < m ==> #[trigger] sizes@[j] == before.ops[j].support_size()
                            && sizes@[j] <= n,
                    self@ == (PauliSetView {
                        ops: order_until(keys, s as nat, i as nat).map_values(
                            |j: int| before.ops[j],
                        ),
                        ..before
                    }),
                decreases m - i,
            {
                if sizes[i] == s {
                    proof {
                        assert(keys[i as int] == s);
                        lemma_order_until_short(keys, s as nat, i as nat);
                        lemma_bits_round_trip(before.ops[i as int], n as nat);
                    }
                    let ghost held = self@;
                    self.insert_vec_bool(&transposed[i].1, transposed[i].0);
                    proof {
                        assert(self@.ops =~= order_until(keys, s as nat, (i + 1) as nat).map_values(
                            |j: int| before.ops[j],
                        ));
                    }
                } else {
                    assert(order_until(keys, s as nat, (i + 1) as nat) =~= order_until(
                        keys,
                        s as nat,
                        i as nat,
                    ));
                }
                i += 1;
            }
            s += 1;
            assert(order_until(keys, s as nat, 0) =~= order_until(keys, (s - 1) as nat, m as nat));
        }
        proof {
            assert(order_until(keys, (n + 1) as nat, 0) =~= stable_order(keys, n as nat));
            assert forall|j: int| 0 <= j < keys.len() implies #[trigger] keys[j] <= n by {
                assert(sizes@[j] <= n);
            }
            lemma_stable_order(keys, n as nat);
        }
    }
    /// Inserts a new Pauli operator in the set and returns its index. The
    /// operator enters with a negative sign if its phase is two or three
    /// quarter turns, counted modulo four, and with a positive sign else.
    pub fn insert_pauli(&mut self, pauli: &Pauli) -> (index: usize)
        requires
            old(self).wf(),
            old(self).can_grow(),
            forall|q: int| 2 * old(self).n <= q < pauli.data@.len() ==> !pauli.data@[q],
        ensures
            final(self).wf(),
            final(self).n == old(self).n,
            final(self)@ == old(self)@.push(
                PauliString::from_bits(pauli.data@, pauli.phase % 4 >= 2, old(self).n as nat),
            ),
            old(self).grown(final(self)),
            index == old(self)@.ops.len(),
    {
        self.insert_vec_bool(&pauli.data, pauli.phase % 4 >= 2)
    }

    /// Gets the operator at index `operator_index` as a `Pauli`, with a phase
    /// of two quarter turns if its sign is negative.
    pub fn get_as_pauli(&self, operator_index: usize) -> (r: Pauli)
        requires
            self.wf(),
            operator_index < self@.ops.len(),
        ensures
            r.wf(),
            r.n == self.n,
            r@ == self@.ops[operator_index as int],
    {
        let (phase, data) = self.get_as_vec_bool(operator_index);
        proof {
            self.lemma_op_bits(operator_index as int);
            lemma_bits_round_trip(self@.ops[operator_index as int], self.n as nat);
        }
        Pauli::from_vec_bool(
            data,
            if phase {
                2
            } else {
                0
            },
        )
    }
    /// The lines of the text of a container: for each operator its sign, `-`
    /// or `+`, its letters and a line feed.
    pub open spec fn spec_lines(ops: Seq<PauliString>) -> Seq<char>
        decreases ops.len(),
    {
        if ops.len() == 0 {
            Seq::empty()
        } else {
            Self::spec_lines(ops.drop_last()) + seq![
                if ops.last().sign {
                    '-'
                } else {
                    '+'
                },
            ] + ops.last().chars() + seq!['\n']
        }
    }

    /// Returns the set as text: one line for each operator, with its sign and
    /// its letters, and an empty line at the end.
    pub fn to_text(&self) -> (r: String)
        requires
            self.wf(),
        ensures
            r@ == Self::spec_lines(self@.ops) + seq!['\n'],
    {
        proof {
            reveal_strlit("-");
            reveal_strlit("+");
            reveal_strlit("\n");
        }
        let mut text = String::new();
        let mut i: usize = 0;
        while i < self.len()
            invariant
                self.wf(),
                i <= self@.ops.len(),
                text@ == Self::spec_lines(self@.ops.take(i as int)),
                "-"@ == seq!['-'],
                "+"@ == seq!['+'],
                "\n"@ == seq!['\n'],
            decreases self@.ops.len() - i,
        {
            let (phase, string) = self.get(i);
            proof {
                let next = self@.ops.take(i + 1);
                assert(next.drop_last() =~= self@.ops.take(i as int));
                assert(next.last() == self@.ops[i as int]);
            }
            text.append(if phase {
                "-"
            } else {
                "+"
            });
            text.append(string.as_str());
            text.append("\n");
            i += 1;
        }
        assert(self@.ops.take(i as int) =~= self@.ops);
        text.append("\n");
        text
    }
}

} // verus!
