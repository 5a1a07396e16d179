//! What a local move gains, and which move is the best one.
//!
//! A move binds a chunk of the library to two qubits taken from a list of
//! candidate qubits. Its gain is the number of identity letters that it adds
//! at the front of the container on its two qubits.

use crate::chunks::{
    bind_entry, chunk_gates, lemma_conj_all_dagger, lemma_library_chunk, spec_chunk,
};
use crate::clifford_circuit::{all_fit, spec_dagger_gates, CliffordGate};
use crate::pauli_set::{lemma_leading_ids_is_first, PauliSetView};
use crate::symplectic::{
    lemma_conj_all_concat, lemma_conj_all_single, lemma_conj_all_wf, PauliString,
};
use vstd::prelude::*;

verus! {

/// A move: the places of its two qubits in the list of candidate qubits, the
/// second before the first, and the number of its chunk.
#[derive(Debug, Clone, Copy, PartialEq, Eq, Structural)]
pub struct Move {
    pub first: usize,
    pub second: usize,
    pub chunk: usize,
}

/// The candidate qubits are qubits of the container, each listed once.
pub open spec fn qubits_ok(qubits: Seq<usize>, n: nat) -> bool {
    &&& forall|k: int| 0 <= k < qubits.len() ==> (#[trigger] qubits[k]) < n
    &&& forall|j: int, k: int| 0 <= j < k < qubits.len() ==> qubits[j] != qubits[k]
}

/// The sum of the identity counts of the two qubits.
pub open spec fn pair_count(v: PauliSetView, q1: usize, q2: usize) -> int {
    (v.count_id(q1 as int) + v.count_id(q2 as int)) as int
}

/// What chunk number `c` on the qubits `q1` and `q2` adds to the sum of the
/// identity counts of the two qubits.
pub open spec fn gain(v: PauliSetView, c: nat, q1: usize, q2: usize) -> int {
    pair_count(v.conj_all(chunk_gates(spec_chunk(c), q1, q2)), q1, q2) - pair_count(v, q1, q2)
}

/// The move names two places of the list and a chunk of the library.
pub open spec fn is_candidate(qubits: Seq<usize>, m: Move) -> bool {
    m.second < m.first < qubits.len() && m.chunk < 18
}

/// The move `a` is tried before the move `b`: the moves are tried by
/// ascending first place, then ascending second place, then ascending chunk.
pub open spec fn earlier(a: Move, b: Move) -> bool {
    a.first < b.first || (a.first == b.first && (a.second < b.second || (a.second == b.second
        && a.chunk < b.chunk)))
}

/// The gain of a move.
pub open spec fn move_gain(v: PauliSetView, qubits: Seq<usize>, m: Move) -> int {
    gain(v, m.chunk as nat, qubits[m.first as int], qubits[m.second as int])
}

/// The gates of a move.
pub open spec fn move_gates(qubits: Seq<usize>, m: Move) -> Seq<CliffordGate> {
    chunk_gates(spec_chunk(m.chunk as nat), qubits[m.first as int], qubits[m.second as int])
}

/// `best` is the best of the moves that are tried before `bound`: the move of
/// the greatest gain among those that gain anything, and the earliest of
/// those where several gain as much; none if no move gains anything.
pub open spec fn is_best_before(
    v: PauliSetView,
    qubits: Seq<usize>,
    best: Option<Move>,
    bound: Move,
) -> bool {
    match best {
        None => forall|m: Move|
            is_candidate(qubits, m) && earlier(m, bound) ==> #[trigger] move_gain(v, qubits, m)
                <= 0,
        Some(b) => {
            &&& is_candidate(qubits, b)
            &&& earlier(b, bound)
            &&& move_gain(v, qubits, b) >= 1
            &&& forall|m: Move|
                is_candidate(qubits, m) && earlier(m, bound) ==> #[trigger] move_gain(
                    v,
                    qubits,
                    m,
                ) <= move_gain(v, qubits, b)
            &&& forall|m: Move|
                is_candidate(qubits, m) && earlier(m, b) ==> #[trigger] move_gain(v, qubits, m)
                    < move_gain(v, qubits, b)
        },
    }
}

/// `best` is the best of all the moves on the candidate qubits.
pub open spec fn is_best_move(v: PauliSetView, qubits: Seq<usize>, best: Option<Move>) -> bool {
    match best {
        None => forall|m: Move|
            is_candidate(qubits, m) ==> #[trigger] move_gain(v, qubits, m) <= 0,
        Some(b) => {
            &&& is_candidate(qubits, b)
            &&& move_gain(v, qubits, b) >= 1
            &&& forall|m: Move|
                is_candidate(qubits, m) ==> #[trigger] move_gain(v, qubits, m) <= move_gain(
                    v,
                    qubits,
                    b,
                )
            &&& forall|m: Move|
                is_candidate(qubits, m) && earlier(m, b) ==> #[trigger] move_gain(v, qubits, m)
                    < move_gain(v, qubits, b)
        },
    }
}

/// The best move on the candidate qubits.
pub open spec fn best_move(v: PauliSetView, qubits: Seq<usize>) -> Option<Move> {
    choose|best: Option<Move>| is_best_move(v, qubits, best)
}

/// The gates of the best move; none if no move gains anything.
pub open spec fn best_move_gates(v: PauliSetView, qubits: Seq<usize>) -> Seq<CliffordGate> {
    match best_move(v, qubits) {
        Some(m) => move_gates(qubits, m),
        None => Seq::empty(),
    }
}

/// There is only one best move.
pub proof fn lemma_best_move_unique(
    v: PauliSetView,
    qubits: Seq<usize>,
    a: Option<Move>,
    b: Option<Move>,
)
    requires
        is_best_move(v, qubits, a),
        is_best_move(v, qubits, b),
    ensures
        a == b,
{
    match (a, b) {
        (Some(x), Some(y)) => {
            assert(move_gain(v, qubits, x) <= move_gain(v, qubits, y));
            assert(move_gain(v, qubits, y) <= move_gain(v, qubits, x));
            if earlier(x, y) {
                assert(move_gain(v, qubits, x) < move_gain(v, qubits, y));
            }
            if earlier(y, x) {
                assert(move_gain(v, qubits, y) < move_gain(v, qubits, x));
            }
        },
        (Some(x), None) => {
            assert(move_gain(v, qubits, x) <= 0);
        },
        (None, Some(y)) => {
            assert(move_gain(v, qubits, y) <= 0);
        },
        (None, None) => {},
    }
}

/// A move that is known to be the best one is the one that `best_move` names.
pub proof fn lemma_best_move_is(v: PauliSetView, qubits: Seq<usize>, best: Option<Move>)
    requires
        is_best_move(v, qubits, best),
    ensures
        best_move(v, qubits) == best,
{
    lemma_best_move_unique(v, qubits, best_move(v, qubits), best);
}

/// Conjugation by gates that fit keeps a container well formed.
pub proof fn lemma_view_conj_all(v: PauliSetView, gates: Seq<CliffordGate>)
    requires
        v.wf(),
        all_fit(gates, v.n),
    ensures
        v.conj_all(gates).wf(),
        v.conj_all(gates).ops.len() == v.ops.len(),
{
    assert forall|k: int| 0 <= k < v.ops.len() implies (#[trigger] v.conj_all(gates).ops[k]).wf(
        v.n,
    ) by {
        lemma_conj_all_wf(v.ops[k], gates, v.n);
    }
}

/// Conjugation by gates and then by their inverses in reverse order gives
/// the container back.
pub proof fn lemma_view_undo(v: PauliSetView, gates: Seq<CliffordGate>)
    requires
        v.wf(),
        all_fit(gates, v.n),
    ensures
        v.conj_all(gates).conj_all(spec_dagger_gates(gates)) == v,
{
    let r = v.conj_all(gates).conj_all(spec_dagger_gates(gates));
    assert forall|k: int| 0 <= k < v.ops.len() implies r.ops[k] == v.ops[k] by {
        lemma_conj_all_dagger(v.ops[k], gates, v.n);
    }
    assert(r.ops =~= v.ops);
}

/// Conjugation by two circuits in turn is conjugation by both.
pub proof fn lemma_view_concat(v: PauliSetView, a: Seq<CliffordGate>, b: Seq<CliffordGate>)
    ensures
        v.conj_all(a).conj_all(b) == v.conj_all(a + b),
{
    let r = v.conj_all(a).conj_all(b);
    assert forall|k: int| 0 <= k < v.ops.len() implies r.ops[k] == v.conj_all(a + b).ops[k] by {
        lemma_conj_all_concat(v.ops[k], a, b);
    }
    assert(r.ops =~= v.conj_all(a + b).ops);
}

/// Conjugation by no gate changes nothing.
pub proof fn lemma_view_conj_none(v: PauliSetView)
    ensures
        v.conj_all(Seq::empty()) == v,
{
    assert(v.conj_all(Seq::empty()).ops =~= v.ops);
}

/// The identity count of a qubit is at most the number of operators; it is
/// 0 if the oldest operator has a letter on the qubit, and more if not.
pub proof fn lemma_count_id_floor(v: PauliSetView, q: int)
    requires
        v.wf(),
    ensures
        v.count_id(q) <= v.ops.len(),
        v.ops.len() > 0 && v.ops[0].is_id(q) ==> v.count_id(q) >= 1,
        v.ops.len() > 0 && !v.ops[0].is_id(q) ==> v.count_id(q) == 0,
{
    lemma_leading_ids_is_first(v.ops, q);
}

/// The chunk of the library that makes the second of two letters I: the
/// letter of the first qubit is turned into X or Y, the letter of the second
/// qubit into X, and the CNOT from the first to the second cancels it.
pub open spec fn clearing_chunk(p: PauliString, q1: usize, q2: usize) -> nat {
    let on_first: nat = if p.x[q1 as int] {
        0
    } else {
        2
    };
    let on_second: nat = if !p.z[q2 as int] {
        0
    } else if p.x[q2 as int] {
        1
    } else {
        2
    };
    6 * on_first + 2 * on_second
}

/// A string with letters other than I on two qubits has, after the clearing
/// chunk on these qubits, the letter I on the second of them.
pub proof fn lemma_clearing_chunk(p: PauliString, q1: usize, q2: usize, n: nat)
    requires
        p.wf(n),
        q1 < n,
        q2 < n,
        q1 != q2,
        !p.is_id(q1 as int),
        !p.is_id(q2 as int),
    ensures
        clearing_chunk(p, q1, q2) < 18,
        p.conj_all(chunk_gates(spec_chunk(clearing_chunk(p, q1, q2)), q1, q2)).is_id(q2 as int),
{
    let c = clearing_chunk(p, q1, q2);
    let chunk = spec_chunk(c);
    let a = bind_entry(chunk[0], q1, q2);
    let b = bind_entry(chunk[1], q1, q2);
    let last = CliffordGate::CNOT(q1, q2);
    assert(bind_entry(chunk[2], q1, q2) =~= seq![last]);
    lemma_conj_all_concat(p, a + b, seq![last]);
    lemma_conj_all_concat(p, a, b);
    let after_a = p.conj_all(a);
    let after_b = after_a.conj_all(b);
    lemma_conj_all_single(after_b, last);
    if p.x[q1 as int] {
        assert(a =~= Seq::<CliffordGate>::empty());
        assert(after_a == p);
    } else {
        assert(a =~= seq![CliffordGate::H(q1)]);
        lemma_conj_all_single(p, CliffordGate::H(q1));
    }
    if !p.z[q2 as int] {
        assert(b =~= Seq::<CliffordGate>::empty());
        assert(after_b == after_a);
    } else if p.x[q2 as int] {
        assert(b =~= seq![CliffordGate::S(q2)]);
        lemma_conj_all_single(after_a, CliffordGate::S(q2));
    } else {
        assert(b =~= seq![CliffordGate::H(q2)]);
        lemma_conj_all_single(after_a, CliffordGate::H(q2));
    }
}

/// The progress guarantee: if the oldest operator has letters other than I
/// on two qubits, some chunk of the library gains on these two qubits.
pub proof fn lemma_progress(v: PauliSetView, q1: usize, q2: usize)
    requires
        v.wf(),
        v.ops.len() > 0,
        q1 < v.n,
        q2 < v.n,
        q1 != q2,
        !v.ops[0].is_id(q1 as int),
        !v.ops[0].is_id(q2 as int),
    ensures
        clearing_chunk(v.ops[0], q1, q2) < 18,
        gain(v, clearing_chunk(v.ops[0], q1, q2), q1, q2) >= 1,
{
    let c = clearing_chunk(v.ops[0], q1, q2);
    lemma_clearing_chunk(v.ops[0], q1, q2, v.n);
    let gates = chunk_gates(spec_chunk(c), q1, q2);
    lemma_library_chunk(c, q1, q2, v.n);
    let after = v.conj_all(gates);
    lemma_view_conj_all(v, gates);
    lemma_count_id_floor(v, q1 as int);
    lemma_count_id_floor(v, q2 as int);
    lemma_count_id_floor(after, q1 as int);
    lemma_count_id_floor(after, q2 as int);
}

/// The string has letters other than I on the qubits `q1` and `q2`.
pub open spec fn two_letters(p: PauliString, q1: int, q2: int) -> bool {
    !p.is_id(q1) && !p.is_id(q2)
}

/// A string whose support has two elements or more has letters other than
/// I on two different qubits.
pub proof fn lemma_two_in_support(p: PauliString, k: nat)
    requires
        p.support_below(k) >= 2,
    ensures
        exists|q1: int, q2: int| 0 <= q2 < q1 < k && two_letters(p, q1, q2),
    decreases k,
{
    if k > 0 {
        if p.is_id(k - 1) {
            lemma_two_in_support(p, (k - 1) as nat);
        } else {
            lemma_one_in_support(p, (k - 1) as nat);
            let q2 = choose|q2: int| 0 <= q2 < k - 1 && !p.is_id(q2);
            assert(two_letters(p, k - 1, q2));
        }
    }
}

/// A string whose support below `k` is not empty has a letter other than I
/// below `k`.
pub proof fn lemma_one_in_support(p: PauliString, k: nat)
    requires
        p.support_below(k) >= 1,
    ensures
        exists|q: int| 0 <= q < k && !p.is_id(q),
    decreases k,
{
    if k > 0 {
        if p.is_id(k - 1) {
            lemma_one_in_support(p, (k - 1) as nat);
        }
    }
}

/// Among the moves that are tried before any bound there is a best one.
pub proof fn lemma_best_before_exists(v: PauliSetView, qubits: Seq<usize>, bound: Move)
    requires
        bound.first <= qubits.len(),
        bound.second <= bound.first,
        bound.chunk <= 18,
    ensures
        exists|best: Option<Move>| is_best_before(v, qubits, best, bound),
    decreases bound.first, bound.second, bound.chunk,
{
    if bound.chunk > 0 {
        let tried = Move { chunk: (bound.chunk - 1) as usize, ..bound };
        lemma_best_before_exists(v, qubits, tried);
        let before = choose|best: Option<Move>| is_best_before(v, qubits, best, tried);
        assert forall|m: Move| is_candidate(qubits, m) && earlier(m, bound) implies earlier(
            m,
            tried,
        ) || m == tried by {}
        if is_candidate(qubits, tried) {
            let reached = move_gain(v, qubits, tried);
            let kept: int = match before {
                Some(b) => move_gain(v, qubits, b),
                None => 0,
            };
            if reached >= 1 && reached > kept {
                assert(is_best_before(v, qubits, Some(tried), bound));
            } else {
                assert(is_best_before(v, qubits, before, bound));
            }
        } else {
            assert(is_best_before(v, qubits, before, bound));
        }
    } else if bound.second > 0 {
        let tried = Move { second: (bound.second - 1) as usize, chunk: 18, ..bound };
        lemma_best_before_exists(v, qubits, tried);
        let before = choose|best: Option<Move>| is_best_before(v, qubits, best, tried);
        assert forall|m: Move| is_candidate(qubits, m) && earlier(m, bound) implies earlier(
            m,
            tried,
        ) by {}
        assert(is_best_before(v, qubits, before, bound));
    } else if bound.first > 0 {
        let row = (bound.first - 1) as usize;
        let tried = Move { first: row, second: row, chunk: 0 };
        lemma_best_before_exists(v, qubits, tried);
        let before = choose|best: Option<Move>| is_best_before(v, qubits, best, tried);
        assert forall|m: Move| is_candidate(qubits, m) && earlier(m, bound) implies earlier(
            m,
            tried,
        ) by {}
        assert(is_best_before(v, qubits, before, bound));
    } else {
        assert(is_best_before(v, qubits, None, bound));
    }
}

/// On every list of candidate qubits there is a best move, and it is the
/// one that `best_move` names.
pub proof fn lemma_best_move_exists(v: PauliSetView, qubits: Seq<usize>)
    requires
        qubits.len() <= usize::MAX,
    ensures
        is_best_move(v, qubits, best_move(v, qubits)),
{
    let bound = Move { first: qubits.len() as usize, second: 0, chunk: 0 };
    lemma_best_before_exists(v, qubits, bound);
    let best = choose|best: Option<Move>| is_best_before(v, qubits, best, bound);
    assert forall|m: Move| is_candidate(qubits, m) implies earlier(m, bound) by {}
    assert(is_best_move(v, qubits, best));
}

/// The gates of the best move fit the container and act on two of the
/// candidate qubits only.
pub proof fn lemma_best_move_gates(v: PauliSetView, qubits: Seq<usize>)
    requires
        qubits.len() <= usize::MAX,
        qubits_ok(qubits, v.n),
    ensures
        all_fit(best_move_gates(v, qubits), v.n),
        best_move_gates(v, qubits).len() <= 3,
        forall|k: int, q: int|
            0 <= k < best_move_gates(v, qubits).len() && #[trigger] best_move_gates(
                v,
                qubits,
            )[k].touches(q) ==> exists|i: int| 0 <= i < qubits.len() && #[trigger] qubits[i] == q,
{
    lemma_best_move_exists(v, qubits);
    match best_move(v, qubits) {
        Some(m) => {
            let q1 = qubits[m.first as int];
            let q2 = qubits[m.second as int];
            lemma_library_chunk(m.chunk as nat, q1, q2, v.n);
            let gates = best_move_gates(v, qubits);
            assert forall|k: int, q: int|
                0 <= k < gates.len() && #[trigger] gates[k].touches(q) implies exists|i: int|
                0 <= i < qubits.len() && #[trigger] qubits[i] == q by {
                if q == q1 {
                    assert(qubits[m.first as int] == q);
                } else {
                    assert(qubits[m.second as int] == q);
                }
            }
        },
        None => {},
    }
}

} // verus!
