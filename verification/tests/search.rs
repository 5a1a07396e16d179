use rustiq::chunks::{all_chunks, chunk_at, chunk_to_circuit, conjugate_with_chunk, Chunk, NCHUNKS};
use rustiq::clifford_circuit::CliffordGate;
use rustiq::greedy_pauli_network::{
    build_graph, single_synthesis_step_count, single_synthesis_step_depth, find_best_move, single_synthesis_step, synthesis_step,
    PairMove,
};
use rustiq::matching::maximum_matching_pairs;
use rustiq::metric::Metric;
use rustiq::moves::Move;
use rustiq::pauli_set::PauliSet;

fn bucket(axes: &[&str]) -> PauliSet {
    let axes: Vec<String> = axes.iter().map(|s| (*s).to_owned()).collect();
    PauliSet::from_slice(&axes)
}

#[test]
fn the_library_of_chunks() {
    let chunks = all_chunks();
    assert_eq!(NCHUNKS, 18);
    assert_eq!(chunks.len(), 18);
    let s = |i| Some(CliffordGate::S(i));
    let h = |i| Some(CliffordGate::H(i));
    let cnot = |i, j| Some(CliffordGate::CNOT(i, j));
    let expected: [Chunk; 18] = [
        [None, None, cnot(0, 1)],
        [None, None, cnot(1, 0)],
        [None, s(1), cnot(0, 1)],
        [None, s(1), cnot(1, 0)],
        [None, h(1), cnot(0, 1)],
        [None, h(1), cnot(1, 0)],
        [s(0), None, cnot(0, 1)],
        [s(0), None, cnot(1, 0)],
        [s(0), s(1), cnot(0, 1)],
        [s(0), s(1), cnot(1, 0)],
        [s(0), h(1), cnot(0, 1)],
        [s(0), h(1), cnot(1, 0)],
        [h(0), None, cnot(0, 1)],
        [h(0), None, cnot(1, 0)],
        [h(0), s(1), cnot(0, 1)],
        [h(0), s(1), cnot(1, 0)],
        [h(0), h(1), cnot(0, 1)],
        [h(0), h(1), cnot(1, 0)],
    ];
    for k in 0..18 {
        assert_eq!(chunks[k], expected[k]);
        assert_eq!(chunk_at(k), expected[k]);
    }
}

#[test]
fn a_chunk_bound_to_two_qubits() {
    let chunk: Chunk = [
        Some(CliffordGate::H(0)),
        Some(CliffordGate::S(1)),
        Some(CliffordGate::CNOT(1, 0)),
    ];
    let piece = chunk_to_circuit(&chunk, 5, 2, 7);
    assert_eq!(piece.nqbits, 7);
    assert_eq!(
        piece.gates,
        vec![CliffordGate::H(5), CliffordGate::S(2), CliffordGate::CNOT(2, 5)]
    );
    let other: Chunk = [
        Some(CliffordGate::SqrtXd(1)),
        None,
        Some(CliffordGate::CNOT(0, 1)),
    ];
    assert_eq!(
        chunk_to_circuit(&other, 0, 3, 4).gates,
        vec![CliffordGate::SqrtXd(3), CliffordGate::CNOT(0, 3)]
    );
    let odd: Chunk = [
        Some(CliffordGate::Sd(0)),
        Some(CliffordGate::CZ(0, 1)),
        Some(CliffordGate::SqrtX(0)),
    ];
    assert_eq!(
        chunk_to_circuit(&odd, 1, 0, 2).gates,
        vec![CliffordGate::Sd(1), CliffordGate::SqrtX(1)]
    );
    assert!(chunk_to_circuit(&[None, None, None], 0, 1, 2).gates.is_empty());
}

#[test]
fn conjugation_by_a_chunk_and_back() {
    let mut pset = bucket(&["XYZ", "YYX", "ZIZ", "IXY"]);
    let before = pset.clone();
    for chunk in all_chunks() {
        let mut by_circuit = before.clone();
        by_circuit.conjugate_with_circuit(&chunk_to_circuit(&chunk, 2, 0, 3));
        conjugate_with_chunk(&mut pset, &chunk, 2, 0, false);
        assert_eq!(pset, by_circuit);
        conjugate_with_chunk(&mut pset, &chunk, 2, 0, true);
        assert_eq!(pset, before);
    }
}

#[test]
fn a_chunk_on_one_operator() {
    let mut pset = bucket(&["YY"]);
    // S on qubit 1, then the CNOT from qubit 0 to qubit 1.
    conjugate_with_chunk(&mut pset, &chunk_at(2), 0, 1, false);
    assert_eq!(pset.get(0), (true, "YI".to_owned()));
}

#[test]
fn the_best_move_is_the_first_of_the_greatest_gain() {
    let mut pset = bucket(&["XX"]);
    let before = pset.clone();
    let best = find_best_move(&mut pset, &vec![0, 1]);
    assert_eq!(best, Some(Move { first: 1, second: 0, chunk: 0 }));
    assert_eq!(pset, before);

    let mut pset = bucket(&["ZZ"]);
    assert_eq!(
        find_best_move(&mut pset, &vec![0, 1]),
        Some(Move { first: 1, second: 0, chunk: 0 })
    );

    // YY needs S on its second qubit before the CNOT.
    let mut pset = bucket(&["YY"]);
    assert_eq!(
        find_best_move(&mut pset, &vec![0, 1]),
        Some(Move { first: 1, second: 0, chunk: 2 })
    );
}

#[test]
fn no_move_without_gain() {
    let mut pset = bucket(&["XI", "IX"]);
    assert_eq!(find_best_move(&mut pset, &vec![0, 1]), None);
    let mut pset = bucket(&["XX"]);
    assert_eq!(find_best_move(&mut pset, &vec![1]), None);
    assert_eq!(find_best_move(&mut pset, &Vec::new()), None);
    let piece = single_synthesis_step_count(&mut pset, &vec![0]);
    assert!(piece.gates.is_empty());
    assert_eq!(pset.get(0), (false, "XX".to_owned()));
}

#[test]
fn the_gain_decides_between_pairs() {
    // On the qubits 1 and 0 a CNOT clears one letter of the first operator,
    // which gains one; on the qubits 2 and 1 it clears qubit 1 in both
    // operators, which gains two.
    let mut pset = bucket(&["XXX", "IXX"]);
    let best = find_best_move(&mut pset, &vec![0, 1, 2]);
    assert_eq!(best, Some(Move { first: 2, second: 1, chunk: 0 }));
    // The candidates are places in the list: the same pair comes first in
    // another list.
    let best = find_best_move(&mut pset, &vec![1, 2, 0]);
    assert_eq!(best, Some(Move { first: 1, second: 0, chunk: 0 }));
    let best = find_best_move(&mut pset, &vec![0, 1]);
    assert_eq!(best, Some(Move { first: 1, second: 0, chunk: 0 }));
}

#[test]
fn among_equal_gains_the_first_move_wins() {
    // Every pair of qubits gains as much by a CNOT.
    let mut pset = bucket(&["XXXX"]);
    let best = find_best_move(&mut pset, &vec![0, 1, 2, 3]);
    assert_eq!(best, Some(Move { first: 1, second: 0, chunk: 0 }));
    let best = find_best_move(&mut pset, &vec![3, 2, 1, 0]);
    assert_eq!(best, Some(Move { first: 1, second: 0, chunk: 0 }));
}

#[test]
fn a_count_step_commits_its_move() {
    let mut pset = bucket(&["YY", "XZ"]);
    let piece = single_synthesis_step_count(&mut pset, &vec![0, 1]);
    assert_eq!(piece.nqbits, 2);
    assert_eq!(piece.gates, vec![CliffordGate::S(0), CliffordGate::CNOT(1, 0)]);
    let mut replay = bucket(&["YY", "XZ"]);
    replay.conjugate_with_circuit(&piece);
    assert_eq!(pset, replay);
    assert_eq!(pset.get(0), (true, "IY".to_owned()));
}

#[test]
fn the_count_policy_on_the_front_operator() {
    // All the qubits: the pair of the qubits 1 and 0 comes first, and the
    // CNOT clears qubit 0 of the second operator at once.
    let mut all = bucket(&["IIXX", "XXII"]);
    let piece = synthesis_step(&mut all, &Metric::COUNT, false);
    assert_eq!(piece.gates, vec![CliffordGate::CNOT(3, 2)]);
    // The support of the first operator only.
    let mut front = bucket(&["XXII", "XXXX"]);
    let piece = synthesis_step(&mut front, &Metric::COUNT, true);
    assert_eq!(piece.gates, vec![CliffordGate::CNOT(1, 0)]);
    let mut trivial = bucket(&["XIII", "XXXX"]);
    let piece = synthesis_step(&mut trivial, &Metric::COUNT, true);
    assert!(piece.gates.is_empty());
    let mut whole = bucket(&["XIII", "XXXX"]);
    let piece = single_synthesis_step(&mut whole, &Metric::COUNT);
    assert_eq!(piece.gates.len(), 1);
}

#[test]
fn the_graph_of_the_gaining_pairs() {
    let mut pset = bucket(&["XXII", "IIYY"]);
    let before = pset.clone();
    let (graph, moves) = build_graph(&mut pset);
    assert_eq!(pset, before);
    assert_eq!(graph.node_count(), 4);
    assert_eq!(graph.edge_count(), 2);
    assert_eq!(
        moves,
        vec![
            PairMove { qbit1: 0, qbit2: 1, chunk: 0 },
            PairMove { qbit1: 2, qbit2: 3, chunk: 2 },
        ]
    );
    let weights: Vec<i32> = graph.edge_weights().copied().collect();
    // The CNOT on the qubits 0 and 1 leaves both operators I on qubit 1;
    // the move on the qubits 2 and 3 leaves one more operator I on qubit 3.
    assert_eq!(weights, vec![2, 1]);
}

#[test]
fn a_depth_step_moves_on_disjoint_pairs() {
    let mut pset = bucket(&["XXII", "IIYY"]);
    let piece = single_synthesis_step_depth(&mut pset);
    assert_eq!(
        piece.gates,
        vec![CliffordGate::CNOT(0, 1), CliffordGate::S(3), CliffordGate::CNOT(2, 3)]
    );
    assert_eq!(pset.get(0), (false, "XIII".to_owned()));
    assert_eq!(pset.get(1), (true, "IIYI".to_owned()));
    assert_eq!(piece.entangling_depth(), 1);
    let mut again = bucket(&["XXII", "IIYY"]);
    let same = single_synthesis_step(&mut again, &Metric::DEPTH);
    assert_eq!(same.gates, piece.gates);
}

#[test]
fn the_pairs_of_a_depth_step_share_no_qubit() {
    let mut pset = bucket(&["XYZXYZ", "ZZXXYY", "YXYXYX", "XXXZZZ"]);
    let piece = single_synthesis_step_depth(&mut pset);
    let mut used = vec![false; 6];
    let mut pairs = 0;
    for gate in piece.gates.iter() {
        if let CliffordGate::CNOT(a, b) = gate {
            assert!(!used[*a] && !used[*b]);
            used[*a] = true;
            used[*b] = true;
            pairs += 1;
        }
    }
    assert!(pairs >= 1);
    for gate in piece.gates.iter() {
        match gate {
            CliffordGate::H(q) | CliffordGate::S(q) => assert!(used[*q]),
            _ => {}
        }
    }
    assert_eq!(piece.entangling_depth(), 1);
}

#[test]
fn a_depth_step_without_gain_is_empty() {
    let mut pset = bucket(&["XI", "IX"]);
    let before = pset.clone();
    assert!(single_synthesis_step_depth(&mut pset).gates.is_empty());
    assert_eq!(pset, before);
}

#[test]
fn maximum_matchings() {
    let path = vec![(0, 1, 1), (1, 2, 5), (2, 3, 1)];
    assert_eq!(maximum_matching_pairs(4, &path), vec![(0, 1), (2, 3)]);
    let triangle = vec![(0, 1, 1), (1, 2, 1), (2, 0, 1)];
    assert_eq!(maximum_matching_pairs(3, &triangle).len(), 1);
    let star = vec![(3, 0, 1), (3, 1, 1), (3, 2, 1)];
    let matching = maximum_matching_pairs(5, &star);
    assert_eq!(matching.len(), 1);
    assert_eq!(matching[0].1, 3);
    assert!(maximum_matching_pairs(4, &Vec::new()).is_empty());
    assert!(maximum_matching_pairs(2, &vec![(1, 1, 1)]).is_empty());
    assert!(maximum_matching_pairs(0, &Vec::new()).is_empty());
}
