//! One step of the greedy search: the best local move under the count
//! policy, a layer of moves on disjoint qubits under the depth policy.

use crate::chunks::{
    chunk_at, chunk_gates, chunk_to_circuit, conjugate_with_chunk, lemma_library_chunk, spec_chunk,
    NCHUNKS,
};
use crate::clifford_circuit::{
    all_fit, depth_below, lemma_depth_below_is_max, lemma_depth_skip, qbit_depth, CliffordCircuit,
    CliffordGate,
};
use crate::matching::{
    add_edge, add_node, graph_edges, graph_nodes, has_proper_edge, is_matching,
    is_maximum_matching, joined, lemma_maximum_matching_not_empty, matched_pairs,
    maximum_matching_of, new_graph, pairs_disjoint,
};
use crate::metric::Metric;
use crate::moves::{
    best_move, best_move_gates, earlier, gain, is_best_before, is_best_move, is_candidate,
    lemma_best_move_is, lemma_progress, lemma_two_in_support, lemma_view_concat,
    lemma_view_conj_none, lemma_view_undo, move_gain, pair_count, qubits_ok, two_letters, Move,
};
use crate::pauli_set::{PauliSet, PauliSetView};
use petgraph::graph::UnGraph;
use vstd::prelude::*;

verus! {

/// Returns the sum of the identity counts of the two qubits.
fn count_pair(bucket: &PauliSet, qbit1: usize, qbit2: usize) -> (r: u128)
    requires
        bucket.wf(),
        qbit1 < bucket.n,
        qbit2 < bucket.n,
    ensures
        r == pair_count(bucket@, qbit1, qbit2),
{
    (bucket.count_id(qbit1) as u128) + (bucket.count_id(qbit2) as u128)
}

/// Tries chunk number `chunk` on the qubits `qbit1` and `qbit2`: conjugates
/// the bucket by it, measures the sum of the identity counts of the two
/// qubits, and undoes the conjugation.
fn try_chunk(bucket: &mut PauliSet, chunk: usize, qbit1: usize, qbit2: usize) -> (r: u128)
    requires
        old(bucket).wf(),
        chunk < NCHUNKS,
        qbit1 < old(bucket).n,
        qbit2 < old(bucket).n,
        qbit1 != qbit2,
    ensures
        final(bucket).wf(),
        final(bucket).n == old(bucket).n,
        final(bucket)@ == old(bucket)@,
        r == pair_count(
            old(bucket)@.conj_all(chunk_gates(spec_chunk(chunk as nat), qbit1, qbit2)),
            qbit1,
            qbit2,
        ),
{
    let template = chunk_at(chunk);
    proof {
        bucket.lemma_view_wf();
        lemma_library_chunk(chunk as nat, qbit1, qbit2, bucket.n as nat);
    }
    conjugate_with_chunk(bucket, &template, qbit1, qbit2, false);
    let r = count_pair(bucket, qbit1, qbit2);
    conjugate_with_chunk(bucket, &template, qbit1, qbit2, true);
    proof {
        lemma_view_undo(old(bucket)@, chunk_gates(spec_chunk(chunk as nat), qbit1, qbit2));
    }
    r
}

/// Finds the best move on the candidate qubits: every chunk is tried on
/// every pair of them, and the bucket is left as it was.
pub fn find_best_move(bucket: &mut PauliSet, qubits: &Vec<usize>) -> (best: Option<Move>)
    requires
        old(bucket).wf(),
        qubits_ok(qubits@, old(bucket).n as nat),
    ensures
        final(bucket).wf(),
        final(bucket).n == old(bucket).n,
        final(bucket)@ == old(bucket)@,
        is_best_move(old(bucket)@, qubits@, best),
{
    let ghost v = bucket@;
    let mut best: Option<Move> = None;
    let mut best_gain: u128 = 0;
    let mut i1: usize = 0;
    while i1 < qubits.len()
        invariant
            bucket.wf(),
            bucket.n == old(bucket).n,
            bucket@ == v,
            qubits_ok(qubits@, bucket.n as nat),
            i1 <= qubits@.len(),
            is_best_before(v, qubits@, best, Move { first: i1, second: 0, chunk: 0 }),
            best is Some ==> best_gain == move_gain(v, qubits@, best->0),
            best is None ==> best_gain == 0,
        decreases qubits@.len() - i1,
    {
        let mut i2: usize = 0;
        while i2 < i1
            invariant
                bucket.wf(),
                bucket.n == old(bucket).n,
                bucket@ == v,
                qubits_ok(qubits@, bucket.n as nat),
                i1 < qubits@.len(),
                i2 <= i1,
                is_best_before(v, qubits@, best, Move { first: i1, second: i2, chunk: 0 }),
                best is Some ==> best_gain == move_gain(v, qubits@, best->0),
                best is None ==> best_gain == 0,
            decreases i1 - i2,
        {
            let qbit1 = qubits[i1];
            let qbit2 = qubits[i2];
            let init = count_pair(bucket, qbit1, qbit2);
            let mut c: usize = 0;
            while c < NCHUNKS
                invariant
                    bucket.wf(),
                    bucket.n == old(bucket).n,
                    bucket@ == v,
                    qubits_ok(qubits@, bucket.n as nat),
                    i1 < qubits@.len(),
                    i2 < i1,
                    c <= NCHUNKS,
                    qbit1 == qubits@[i1 as int],
                    qbit2 == qubits@[i2 as int],
                    init == pair_count(v, qbit1, qbit2),
                    is_best_before(v, qubits@, best, Move { first: i1, second: i2, chunk: c }),
                    best is Some ==> best_gain == move_gain(v, qubits@, best->0),
                    best is None ==> best_gain == 0,
                decreases NCHUNKS - c,
            {
                let reached = try_chunk(bucket, c, qbit1, qbit2);
                let ghost tried = Move { first: i1, second: i2, chunk: c };
                assert(move_gain(v, qubits@, tried) == reached - init);
                if reached > init && reached - init > best_gain {
                    best_gain = reached - init;
                    best = Some(Move { first: i1, second: i2, chunk: c });
                }
                c += 1;
                proof {
                    let bound = Move { first: i1, second: i2, chunk: c };
                    assert forall|m: Move|
                        is_candidate(qubits@, m) && earlier(m, bound) implies earlier(m, tried)
                        || m == tried by {}
                }
            }
            i2 += 1;
            proof {
                let before = Move { first: i1, second: (i2 - 1) as usize, chunk: NCHUNKS };
                let bound = Move { first: i1, second: i2, chunk: 0 };
                assert forall|m: Move|
                    is_candidate(qubits@, m) && earlier(m, bound) implies earlier(m, before) by {}
            }
        }
        i1 += 1;
        proof {
            let before = Move { first: (i1 - 1) as usize, second: (i1 - 1) as usize, chunk: 0 };
            let bound = Move { first: i1, second: 0, chunk: 0 };
            assert forall|m: Move|
                is_candidate(qubits@, m) && earlier(m, bound) implies earlier(m, before) by {}
        }
    }
    proof {
        let bound = Move { first: i1, second: 0, chunk: 0 };
        assert forall|m: Move| is_candidate(qubits@, m) implies earlier(m, bound) by {}
    }
    best
}

/// The string has letters other than I on two of the candidate qubits.
pub open spec fn front_pair_among(p: crate::symplectic::PauliString, qubits: Seq<usize>) -> bool {
    exists|i1: int, i2: int|
        0 <= i2 < i1 < qubits.len() && two_letters(p, qubits[i1] as int, qubits[i2] as int)
}

/// One step of the count policy on the candidate qubits: commits the best
/// move and returns its gates; commits nothing and returns no gate if no
/// move gains anything.
pub fn single_synthesis_step_count(bucket: &mut PauliSet, qubits: &Vec<usize>) -> (r:
    CliffordCircuit)
    requires
        old(bucket).wf(),
        qubits_ok(qubits@, old(bucket).n as nat),
    ensures
        final(bucket).wf(),
        final(bucket).n == old(bucket).n,
        r.nqbits == old(bucket).n,
        r@ == best_move_gates(old(bucket)@, qubits@),
        all_fit(r@, old(bucket).n as nat),
        final(bucket)@ == old(bucket)@.conj_all(r@),
        old(bucket)@.ops.len() > 0 && front_pair_among(old(bucket)@.ops[0], qubits@) ==> r@.len()
            > 0,
{
    let best = find_best_move(bucket, qubits);
    let _candidates = qubits.len();
    proof {
        lemma_best_move_is(old(bucket)@, qubits@, best);
        bucket.lemma_view_wf();
        let v = old(bucket)@;
        if v.ops.len() > 0 && front_pair_among(v.ops[0], qubits@) {
            let (i1, i2) = choose|i1: int, i2: int|
                0 <= i2 < i1 < qubits@.len() && two_letters(
                    v.ops[0],
                    qubits@[i1] as int,
                    qubits@[i2] as int,
                );
            lemma_progress(v, qubits@[i1], qubits@[i2]);
            let c = crate::moves::clearing_chunk(v.ops[0], qubits@[i1], qubits@[i2]);
            let m = Move { first: i1 as usize, second: i2 as usize, chunk: c as usize };
            assert(is_candidate(qubits@, m));
            assert(move_gain(v, qubits@, m) >= 1);
            assert(best is Some);
            let b = best->0;
            lemma_library_chunk(
                b.chunk as nat,
                qubits@[b.first as int],
                qubits@[b.second as int],
                v.n,
            );
        }
    }
    match best {
        Some(m) => {
            let qbit1 = qubits[m.first];
            let qbit2 = qubits[m.second];
            let template = chunk_at(m.chunk);
            proof {
                lemma_library_chunk(m.chunk as nat, qbit1, qbit2, bucket.n as nat);
            }
            conjugate_with_chunk(bucket, &template, qbit1, qbit2, false);
            chunk_to_circuit(&template, qbit1, qbit2, bucket.n)
        },
        None => {
            proof {
                lemma_view_conj_none(bucket@);
            }
            CliffordCircuit::new(bucket.n)
        },
    }
}

/// The weight of an edge for a gain: the gain, or the largest weight if the
/// gain is larger.
pub open spec fn edge_weight(g: int) -> i32 {
    if g > i32::MAX {
        i32::MAX
    } else {
        g as i32
    }
}

/// The candidate qubits for the moves on the qubits `q1` and `q2` alone,
/// with `q1` on slot 0.
pub open spec fn pair_list(q1: usize, q2: usize) -> Seq<usize> {
    seq![q2, q1]
}

/// The edge of the qubits `q1` and `q2`, weighted by the gain of their best
/// move; no edge if no move on them gains anything.
pub open spec fn pair_edge(v: PauliSetView, q1: usize, q2: usize) -> Seq<(usize, usize, i32)> {
    match best_move(v, pair_list(q1, q2)) {
        Some(m) => seq![(q1, q2, edge_weight(move_gain(v, pair_list(q1, q2), m)))],
        None => Seq::empty(),
    }
}

/// The edges of the pairs of qubits that come before the pair `(a, b)`. The
/// pairs `(x, y)` with `x < y` come by ascending `x`, then ascending `y`.
pub open spec fn edges_until(v: PauliSetView, a: nat, b: nat) -> Seq<(usize, usize, i32)>
    decreases a, b,
{
    if b > a + 1 {
        edges_until(v, a, (b - 1) as nat) + pair_edge(v, a as usize, (b - 1) as usize)
    } else if a > 0 {
        edges_until(
            v,
            (a - 1) as nat,
            if v.n > a {
                v.n
            } else {
                a
            },
        )
    } else {
        Seq::empty()
    }
}

/// The edges of all the pairs of qubits.
pub open spec fn all_edges(v: PauliSetView) -> Seq<(usize, usize, i32)> {
    edges_until(v, v.n, v.n + 1)
}

/// The pairs of qubits on which the depth policy moves in one step.
pub open spec fn depth_pairs(v: PauliSetView) -> Seq<(usize, usize)> {
    maximum_matching_of(v.n, all_edges(v))
}

/// The gates of the best moves of the pairs, pair after pair.
pub open spec fn layer_gates(v: PauliSetView, pairs: Seq<(usize, usize)>) -> Seq<CliffordGate>
    decreases pairs.len(),
{
    if pairs.len() == 0 {
        Seq::empty()
    } else {
        layer_gates(v, pairs.drop_last()) + best_move_gates(
            v,
            pair_list(pairs.last().0, pairs.last().1),
        )
    }
}

/// The gates of one step of the depth policy.
pub open spec fn depth_step_gates(v: PauliSetView) -> Seq<CliffordGate> {
    layer_gates(v, depth_pairs(v))
}

/// The best move of a pair of qubits, as the graph of the depth policy
/// remembers it.
#[derive(Debug, Clone, Copy, PartialEq, Eq, Structural)]
pub struct PairMove {
    pub qbit1: usize,
    pub qbit2: usize,
    pub chunk: usize,
}

/// The remembered moves are the best moves of the edges, edge by edge.
pub open spec fn moves_match(
    v: PauliSetView,
    moves: Seq<PairMove>,
    edges: Seq<(usize, usize, i32)>,
) -> bool {
    &&& moves.len() == edges.len()
    &&& forall|k: int|
        0 <= k < moves.len() ==> {
            let m = #[trigger] moves[k];
            &&& m.qbit1 == edges[k].0
            &&& m.qbit2 == edges[k].1
            &&& m.qbit1 < m.qbit2 < v.n
            &&& m.chunk < 18
            &&& best_move(v, pair_list(m.qbit1, m.qbit2)) == Some(
                Move { first: 1, second: 0, chunk: m.chunk },
            )
        }
}

/// Every pair of qubits before `(a, b)` on which some chunk gains is joined
/// by an edge.
pub open spec fn gains_joined(
    v: PauliSetView,
    edges: Seq<(usize, usize, i32)>,
    a: nat,
    b: nat,
) -> bool {
    forall|x: usize, y: usize, c: nat|
        x < y < v.n && (x < a || (x == a && y < b)) && c < 18 && #[trigger] gain(v, c, x, y) >= 1
            ==> joined(edges, x, y)
}

/// Builds the graph of the depth policy: a node for each qubit, and for each
/// pair of qubits on which some move gains an edge weighted by the gain of
/// its best move. Returns the graph and the best move of each edge, and
/// leaves the bucket as it was.
pub fn build_graph(bucket: &mut PauliSet) -> (r: (UnGraph<(), i32, usize>, Vec<PairMove>))
    requires
        old(bucket).wf(),
    ensures
        final(bucket).wf(),
        final(bucket).n == old(bucket).n,
        final(bucket)@ == old(bucket)@,
        graph_nodes(r.0) == old(bucket).n,
        graph_edges(r.0) == all_edges(old(bucket)@),
        moves_match(old(bucket)@, r.1@, graph_edges(r.0)),
        gains_joined(old(bucket)@, graph_edges(r.0), old(bucket).n as nat, 0),
{
    let ghost v = bucket@;
    let n = bucket.n;
    proof {
        bucket.lemma_view_wf();
    }
    let mut graph = new_graph();
    let mut moves: Vec<PairMove> = Vec::new();
    let mut k: usize = 0;
    while k < n
        invariant
            k <= n,
            graph_nodes(graph) == k,
            graph_edges(graph) == Seq::<(usize, usize, i32)>::empty(),
        decreases n - k,
    {
        add_node(&mut graph);
        k += 1;
    }
    let mut qbit1: usize = 0;
    while qbit1 < n
        invariant
            bucket.wf(),
            bucket.n == n,
            bucket@ == v,
            v.n == n,
            v.wf(),
            qbit1 <= n,
            graph_nodes(graph) == n,
            graph_edges(graph) == edges_until(v, qbit1 as nat, (qbit1 + 1) as nat),
            moves_match(v, moves@, graph_edges(graph)),
            gains_joined(v, graph_edges(graph), qbit1 as nat, 0),
        decreases n - qbit1,
    {
        let mut qbit2: usize = qbit1 + 1;
        while qbit2 < n
            invariant
                bucket.wf(),
                bucket.n == n,
                bucket@ == v,
                v.n == n,
                v.wf(),
                    qbit1 < n,
                qbit1 < qbit2 <= n || (qbit2 == qbit1 + 1),
                graph_nodes(graph) == n,
                graph_edges(graph) == edges_until(v, qbit1 as nat, qbit2 as nat),
                moves_match(v, moves@, graph_edges(graph)),
                gains_joined(v, graph_edges(graph), qbit1 as nat, qbit2 as nat),
            decreases n - qbit2,
        {
            let pair: Vec<usize> = vec![qbit2, qbit1];
            assert(pair@ =~= pair_list(qbit1, qbit2));
            let init = count_pair(bucket, qbit1, qbit2);
            let best = find_best_move(bucket, &pair);
            let ghost edges = graph_edges(graph);
            proof {
                lemma_best_move_is(v, pair@, best);
            }
            if let Some(m) = best {
                let template = chunk_at(m.chunk);
                proof {
                    lemma_library_chunk(m.chunk as nat, qbit1, qbit2, n as nat);
                    lemma_view_undo(v, chunk_gates(spec_chunk(m.chunk as nat), qbit1, qbit2));
                }
                conjugate_with_chunk(bucket, &template, qbit1, qbit2, false);
                let reached = count_pair(bucket, qbit1, qbit2);
                conjugate_with_chunk(bucket, &template, qbit1, qbit2, true);
                let score = reached - init;
                let weight: i32 = if score > 0x7fff_ffff {
                    0x7fff_ffff
                } else {
                    score as i32
                };
                add_edge(&mut graph, qbit1, qbit2, weight);
                moves.push(PairMove { qbit1, qbit2, chunk: m.chunk });
                proof {
                    assert(graph_edges(graph)[edges.len() as int] == (qbit1, qbit2, weight));
                    assert forall|x: usize, y: usize| joined(edges, x, y) implies joined(
                        graph_edges(graph),
                        x,
                        y,
                    ) by {
                        let k = choose|k: int|
                            0 <= k < edges.len() && (((#[trigger] edges[k]).0 == x && edges[k].1
                                == y) || (edges[k].0 == y && edges[k].1 == x));
                        assert(graph_edges(graph)[k] == edges[k]);
                    }
                    assert(joined(graph_edges(graph), qbit1, qbit2));
                }
            } else {
                proof {
                    assert forall|c: nat| c < 18 implies gain(v, c, qbit1, qbit2) <= 0 by {
                        let m = Move { first: 1, second: 0, chunk: c as usize };
                        assert(is_candidate(pair@, m));
                        assert(move_gain(v, pair@, m) <= 0);
                    }
                }
            }
            qbit2 += 1;
        }
        qbit1 += 1;
    }
    (graph, moves)
}

/// Looks up the remembered move of the pair of qubits `(a, b)`.
fn find_pair_move(moves: &Vec<PairMove>, a: usize, b: usize) -> (r: Option<PairMove>)
    ensures
        match r {
            Some(m) => exists|k: int| 0 <= k < moves@.len() && moves@[k] == m && m.qbit1 == a
                && m.qbit2 == b,
            None => forall|k: int|
                0 <= k < moves@.len() ==> !((#[trigger] moves@[k]).qbit1 == a && moves@[k].qbit2
                    == b),
        },
{
    let mut k: usize = 0;
    while k < moves.len()
        invariant
            k <= moves@.len(),
            forall|j: int|
                0 <= j < k ==> !((#[trigger] moves@[j]).qbit1 == a && moves@[j].qbit2 == b),
        decreases moves@.len() - k,
    {
        if moves[k].qbit1 == a && moves[k].qbit2 == b {
            return Some(moves[k]);
        }
        k += 1;
    }
    None
}

/// The qubit `q` is one of the qubits of the pairs.
pub open spec fn in_pairs(pairs: Seq<(usize, usize)>, q: int) -> bool {
    exists|j: int| 0 <= j < pairs.len() && ((#[trigger] pairs[j]).0 == q || pairs[j].1 == q)
}

/// After a chunk of the library on two qubits, these two qubits lie one
/// layer after the later of their layers, and the layer of every other qubit
/// is as it was.
pub proof fn lemma_chunk_depth(so_far: Seq<CliffordGate>, c: nat, q1: usize, q2: usize, q: int)
    requires
        c < 18,
        q1 != q2,
    ensures
        qbit_depth(so_far + chunk_gates(spec_chunk(c), q1, q2), true, q) == (if q == q1 || q
            == q2 {
            let a = qbit_depth(so_far, true, q1 as int);
            let b = qbit_depth(so_far, true, q2 as int);
            if a >= b {
                a + 1
            } else {
                b + 1
            }
        } else {
            qbit_depth(so_far, true, q)
        }),
{
    let chunk = spec_chunk(c);
    let before = crate::chunks::bind_entry(chunk[0], q1, q2) + crate::chunks::bind_entry(
        chunk[1],
        q1,
        q2,
    );
    let last = if c % 2 == 0 {
        CliffordGate::CNOT(q1, q2)
    } else {
        CliffordGate::CNOT(q2, q1)
    };
    let all = so_far + chunk_gates(chunk, q1, q2);
    assert(crate::chunks::bind_entry(chunk[2], q1, q2) =~= seq![last]);
    assert(all =~= (so_far + before).push(last));
    assert(all.drop_last() =~= so_far + before);
    assert(all.last() == last);
    lemma_depth_skip(so_far, before, true, q);
    lemma_depth_skip(so_far, before, true, q1 as int);
    lemma_depth_skip(so_far, before, true, q2 as int);
}

/// One step of the depth policy: commits the best moves of the pairs of a
/// maximum matching of the graph of the gaining pairs, and returns their
/// gates as one layer.
pub fn single_synthesis_step_depth(bucket: &mut PauliSet) -> (r: CliffordCircuit)
    requires
        old(bucket).wf(),
    ensures
        final(bucket).wf(),
        final(bucket).n == old(bucket).n,
        r.nqbits == old(bucket).n,
        r@ == depth_step_gates(old(bucket)@),
        all_fit(r@, old(bucket).n as nat),
        final(bucket)@ == old(bucket)@.conj_all(r@),
        is_maximum_matching(
            depth_pairs(old(bucket)@),
            old(bucket).n as nat,
            all_edges(old(bucket)@),
        ),
        depth_below(r@, true, old(bucket).n as nat) <= 1,
        old(bucket)@.ops.len() > 0 && old(bucket)@.ops[0].support_size() >= 2 ==> r@.len() > 0,
{
    let ghost v = bucket@;
    let n = bucket.n;
    proof {
        bucket.lemma_view_wf();
    }
    let (graph, moves) = build_graph(bucket);
    let ghost edges = graph_edges(graph);
    let pairs = matched_pairs(&graph);
    proof {
        if v.ops.len() > 0 && v.ops[0].support_size() >= 2 {
            lemma_two_in_support(v.ops[0], v.n);
            let (q1, q2) = choose|q1: int, q2: int|
                0 <= q2 < q1 < v.n && two_letters(v.ops[0], q1, q2);
            lemma_progress(v, q2 as usize, q1 as usize);
            let c = crate::moves::clearing_chunk(v.ops[0], q2 as usize, q1 as usize);
            assert(gain(v, c, q2 as usize, q1 as usize) >= 1);
            assert(joined(edges, q2 as usize, q1 as usize));
            let k = choose|k: int|
                0 <= k < edges.len() && (((#[trigger] edges[k]).0 == q2 as usize && edges[k].1
                    == q1 as usize) || (edges[k].0 == q1 as usize && edges[k].1 == q2 as usize));
            assert(edges[k].0 != edges[k].1);
            assert(has_proper_edge(edges));
            assert forall|j: int| 0 <= j < edges.len() implies (#[trigger] edges[j]).0 < n
                && edges[j].1 < n by {
                assert(moves@[j].qbit1 == edges[j].0);
            }
            lemma_maximum_matching_not_empty(pairs@, n as nat, edges);
        }
        lemma_view_conj_none(v);
    }
    let mut circuit_piece = CliffordCircuit::new(n);
    let mut k: usize = 0;
    while k < pairs.len()
        invariant
            bucket.wf(),
            bucket.n == n,
            v.n == n,
            v.wf(),
            k <= pairs@.len(),
            is_matching(pairs@, n as nat, edges),
            moves_match(v, moves@, edges),
            circuit_piece.nqbits == n,
            circuit_piece@ == layer_gates(v, pairs@.take(k as int)),
            circuit_piece@.len() >= k,
            all_fit(circuit_piece@, n as nat),
            bucket@ == v.conj_all(circuit_piece@),
            forall|q: int|
                #![trigger qbit_depth(circuit_piece@, true, q)]
                qbit_depth(circuit_piece@, true, q) == (if in_pairs(pairs@.take(k as int), q) {
                    1nat
                } else {
                    0nat
                }),
        decreases pairs@.len() - k,
    {
        let (qbit1, qbit2) = pairs[k];
        let found = find_pair_move(&moves, qbit1, qbit2);
        proof {
            assert(joined(edges, qbit1, qbit2));
            let j = choose|j: int|
                0 <= j < edges.len() && (((#[trigger] edges[j]).0 == qbit1 && edges[j].1 == qbit2)
                    || (edges[j].0 == qbit2 && edges[j].1 == qbit1));
            assert(moves@[j].qbit1 == edges[j].0);
            assert(moves@[j].qbit1 == qbit1 && moves@[j].qbit2 == qbit2);
            let next = pairs@.take(k + 1);
            assert(next.drop_last() =~= pairs@.take(k as int));
            assert(next.last() == pairs@[k as int]);
        }
        if let Some(m) = found {
            let template = chunk_at(m.chunk);
            let ghost gates = chunk_gates(spec_chunk(m.chunk as nat), qbit1, qbit2);
            let ghost so_far = circuit_piece@;
            proof {
                lemma_library_chunk(m.chunk as nat, qbit1, qbit2, n as nat);
                assert(best_move_gates(v, pair_list(qbit1, qbit2)) == gates);
                lemma_view_concat(v, so_far, gates);
                let before = pairs@.take(k as int);
                assert(!in_pairs(before, qbit1 as int) && !in_pairs(before, qbit2 as int)) by {
                    if in_pairs(before, qbit1 as int) || in_pairs(before, qbit2 as int) {
                        let j = choose|j: int|
                            0 <= j < before.len() && ((#[trigger] before[j]).0 == qbit1
                                || before[j].1 == qbit1 || before[j].0 == qbit2 || before[j].1
                                == qbit2);
                        assert(before[j] == pairs@[j]);
                    }
                }
                assert forall|q: int|
                    #![trigger qbit_depth(so_far + gates, true, q)]
                    qbit_depth(so_far + gates, true, q) == (if in_pairs(
                        pairs@.take(k + 1),
                        q,
                    ) {
                        1nat
                    } else {
                        0nat
                    }) by {
                    lemma_chunk_depth(so_far, m.chunk as nat, qbit1, qbit2, q);
                    let next = pairs@.take(k + 1);
                    if in_pairs(before, q) {
                        let j = choose|j: int|
                            0 <= j < before.len() && ((#[trigger] before[j]).0 == q
                                || before[j].1 == q);
                        assert(next[j] == before[j]);
                    }
                    if q == qbit1 || q == qbit2 {
                        assert(next[k as int].0 == q || next[k as int].1 == q);
                    }
                    if in_pairs(next, q) {
                        let j = choose|j: int|
                            0 <= j < next.len() && ((#[trigger] next[j]).0 == q || next[j].1
                                == q);
                        if j < k {
                            assert(before[j] == next[j]);
                        }
                    }
                }
            }
            conjugate_with_chunk(bucket, &template, qbit1, qbit2, false);
            circuit_piece.extend_with(&chunk_to_circuit(&template, qbit1, qbit2, n));
        }
        k += 1;
    }
    proof {
        assert(pairs@.take(k as int) == pairs@);
        lemma_depth_below_is_max(circuit_piece@, true, n as nat);
    }
    circuit_piece
}

/// The qubits `0` to `n - 1`.
fn all_qubits(n: usize) -> (r: Vec<usize>)
    ensures
        r@ == Seq::new(n as nat, |k: int| k as usize),
        qubits_ok(r@, n as nat),
{
    let mut out: Vec<usize> = Vec::new();
    let mut k: usize = 0;
    while k < n
        invariant
            k <= n,
            out@.len() == k,
            forall|j: int| 0 <= j < k ==> out@[j] == j,
        decreases n - k,
    {
        out.push(k);
        k += 1;
    }
    assert(out@ =~= Seq::new(n as nat, |k: int| k as usize));
    out
}

/// The candidate qubits of the count policy: the support of the oldest
/// operator if `front_only` is set and there is an operator, all the qubits
/// else.
pub open spec fn count_qubits(v: PauliSetView, front_only: bool) -> Seq<usize> {
    if front_only && v.ops.len() > 0 {
        v.ops[0].support()
    } else {
        Seq::new(v.n, |k: int| k as usize)
    }
}

/// The gates of one step of the search.
pub open spec fn step_gates(v: PauliSetView, metric: Metric, front_only: bool) -> Seq<
    CliffordGate,
> {
    match metric {
        Metric::COUNT => best_move_gates(v, count_qubits(v, front_only)),
        Metric::DEPTH => depth_step_gates(v),
    }
}

/// One step of the search. Under the count policy the best move is found
/// among the pairs of the support of the oldest operator if `front_only` is
/// set, and among all the pairs of qubits else; under the depth policy a
/// layer of moves on disjoint pairs of qubits is found. The moves are
/// committed to the bucket and their gates returned. If the oldest operator
/// has two letters or more other than I, at least one gate is returned.
pub fn synthesis_step(bucket: &mut PauliSet, metric: &Metric, front_only: bool) -> (r:
    CliffordCircuit)
    requires
        old(bucket).wf(),
    ensures
        final(bucket).wf(),
        final(bucket).n == old(bucket).n,
        r.nqbits == old(bucket).n,
        r@ == step_gates(old(bucket)@, *metric, front_only),
        all_fit(r@, old(bucket).n as nat),
        final(bucket)@ == old(bucket)@.conj_all(r@),
        *metric is DEPTH ==> is_maximum_matching(
            depth_pairs(old(bucket)@),
            old(bucket).n as nat,
            all_edges(old(bucket)@),
        ),
        *metric is DEPTH ==> depth_below(r@, true, old(bucket).n as nat) <= 1,
        old(bucket)@.ops.len() > 0 && old(bucket)@.ops[0].support_size() >= 2 ==> r@.len() > 0,
{
    proof {
        bucket.lemma_view_wf();
    }
    match metric {
        Metric::COUNT => {
            let qubits = if front_only && bucket.len() > 0 {
                bucket.get_support(0)
            } else {
                all_qubits(bucket.n)
            };
            proof {
                let v = bucket@;
                if v.ops.len() > 0 {
                    let p = v.ops[0];
                    crate::symplectic::lemma_support_list(p, v.n);
                    if p.support_size() >= 2 {
                        if front_only {
                            assert(two_letters(p, qubits@[1] as int, qubits@[0] as int));
                        } else {
                            lemma_two_in_support(p, v.n);
                            let (q1, q2) = choose|q1: int, q2: int|
                                0 <= q2 < q1 < v.n && two_letters(p, q1, q2);
                            assert(two_letters(p, qubits@[q1] as int, qubits@[q2] as int));
                        }
                        assert(front_pair_among(p, qubits@));
                    }
                }
            }
            single_synthesis_step_count(bucket, &qubits)
        },
        Metric::DEPTH => single_synthesis_step_depth(bucket),
    }
}

/// One step of the search over the whole bucket: the best move among all the
/// pairs of qubits under the count policy, a layer of moves on disjoint pairs
/// of qubits under the depth policy.
pub fn single_synthesis_step(bucket: &mut PauliSet, metric: &Metric) -> (r: CliffordCircuit)
    requires
        old(bucket).wf(),
    ensures
        final(bucket).wf(),
        final(bucket).n == old(bucket).n,
        r.nqbits == old(bucket).n,
        r@ == step_gates(old(bucket)@, *metric, false),
        all_fit(r@, old(bucket).n as nat),
        final(bucket)@ == old(bucket)@.conj_all(r@),
        *metric is DEPTH ==> is_maximum_matching(
            depth_pairs(old(bucket)@),
            old(bucket).n as nat,
            all_edges(old(bucket)@),
        ),
        *metric is DEPTH ==> depth_below(r@, true, old(bucket).n as nat) <= 1,
        old(bucket)@.ops.len() > 0 && old(bucket)@.ops[0].support_size() >= 2 ==> r@.len() > 0,
{
    synthesis_step(bucket, metric, false)
}

/// The gates that one step of the depth policy gives for the `k`-th pair of
/// its layer.
pub open spec fn layer_fragment(v: PauliSetView, pairs: Seq<(usize, usize)>, k: int) -> Seq<
    CliffordGate,
> {
    best_move_gates(v, pair_list(pairs[k].0, pairs[k].1))
}

/// The moves of one layer do not interfere: the gates of the moves of two
/// different pairs of the layer act on different qubits.
pub proof fn lemma_layer_fragments_disjoint(
    v: PauliSetView,
    pairs: Seq<(usize, usize)>,
    j: int,
    k: int,
)
    requires
        pairs_disjoint(pairs),
        forall|i: int| 0 <= i < pairs.len() ==> (#[trigger] pairs[i]).0 < v.n && pairs[i].1 < v.n,
        0 <= j < pairs.len(),
        0 <= k < pairs.len(),
        j != k,
    ensures
        forall|a: int, b: int, q: int|
            0 <= a < layer_fragment(v, pairs, j).len() && 0 <= b < layer_fragment(
                v,
                pairs,
                k,
            ).len() ==> !(#[trigger] layer_fragment(v, pairs, j)[a].touches(q)
                && #[trigger] layer_fragment(v, pairs, k)[b].touches(q)),
{
    let first = pair_list(pairs[j].0, pairs[j].1);
    let second = pair_list(pairs[k].0, pairs[k].1);
    crate::moves::lemma_best_move_gates(v, first);
    crate::moves::lemma_best_move_gates(v, second);
    let f = layer_fragment(v, pairs, j);
    let g = layer_fragment(v, pairs, k);
    assert forall|a: int, b: int, q: int| 0 <= a < f.len() && 0 <= b < g.len() implies !(
    #[trigger] f[a].touches(q) && #[trigger] g[b].touches(q)) by {
        if f[a].touches(q) && g[b].touches(q) {
            let x = choose|i: int| 0 <= i < first.len() && #[trigger] first[i] == q;
            let y = choose|i: int| 0 <= i < second.len() && #[trigger] second[i] == q;
            if j < k {
                assert(pairs[j].0 != pairs[k].0);
            } else {
                assert(pairs[k].0 != pairs[j].0);
            }
        }
    }
}

/// The gates of a layer are the gates of its fragments, one fragment after
/// the other.
pub proof fn lemma_layer_is_fragments(v: PauliSetView, pairs: Seq<(usize, usize)>)
    requires
        pairs.len() > 0,
    ensures
        layer_gates(v, pairs) == layer_gates(v, pairs.drop_last()) + layer_fragment(
            v,
            pairs,
            pairs.len() - 1,
        ),
{
}

} // verus!
