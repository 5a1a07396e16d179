use rustiq::clifford_circuit::CliffordGate;
use rustiq::greedy_order_preserving::pauli_network_synthesis_no_permutation;
use rustiq::metric::Metric;
use rustiq::pauli_dag::{build_dag_from_pauli_set, get_front_layer, PauliDag};
use rustiq::pauli_set::PauliSet;
use rustiq::shuffle::{permute_circuit, permute_input};
use rustiq::synthesis::{check_circuit, greedy_pauli_network, pauli_network_synthesis};

fn strings(axes: &[&str]) -> Vec<String> {
    axes.iter().map(|s| (*s).to_owned()).collect()
}

#[test]
fn the_dependency_graph_of_five_operators() {
    let pset = PauliSet::from_slice(&strings(&["ZI", "XI", "ZZ", "XX", "YY"]));
    let dag = build_dag_from_pauli_set(&pset);
    assert_eq!(dag.alive, vec![true; 5]);
    assert_eq!(
        dag.edges,
        vec![vec![], vec![0], vec![1], vec![0], vec![0, 1]]
    );
    assert_eq!(dag.node_count(), 5);
    assert_eq!(get_front_layer(&dag), vec![0]);
    assert!(dag.is_free(0));
    assert!(!dag.is_free(1));
}

#[test]
fn the_front_layer_follows_the_removals() {
    let pset = PauliSet::from_slice(&strings(&["ZI", "XI", "ZZ", "XX", "YY"]));
    let mut dag = build_dag_from_pauli_set(&pset);
    dag.alive[0] = false;
    assert_eq!(get_front_layer(&dag), vec![1, 3]);
    dag.alive[1] = false;
    assert_eq!(get_front_layer(&dag), vec![2, 3, 4]);
    assert_eq!(dag.node_count(), 3);
    assert!(!dag.is_free(0));
}

#[test]
fn commuting_operators_are_all_in_the_front_layer() {
    let pset = PauliSet::from_slice(&strings(&["XX", "ZZ", "YY"]));
    let dag = build_dag_from_pauli_set(&pset);
    assert_eq!(dag.edges, vec![Vec::<usize>::new(); 3]);
    assert_eq!(get_front_layer(&dag), vec![0, 1, 2]);
}

#[test]
fn a_pauli_dag_and_its_first_steps() {
    let axes = strings(&["ZI", "XI", "ZZ", "XX", "YY"]);
    let mut dag = PauliDag::from_slice(&axes);
    assert_eq!(dag.pauli_set.len(), 5);
    assert_eq!(dag.front_layer.len(), 1);
    assert_eq!(dag.front_layer.get(0), (false, "ZI".to_owned()));
    // The front layer holds a trivial operator only: the step moves nothing
    // and removes the two trivial operators one after the other.
    let piece = dag.single_step_synthesis(&Metric::COUNT, false);
    assert!(piece.gates.is_empty());
    assert_eq!(dag.dag.alive, vec![false, false, true, true, true]);
    assert_eq!(dag.front_layer.len(), 3);
    assert_eq!(dag.front_layer.get(0), (false, "ZZ".to_owned()));
    assert_eq!(dag.front_layer.get(1), (false, "XX".to_owned()));
    assert_eq!(dag.front_layer.get(2), (false, "YY".to_owned()));
    // ZZ is first in the front layer: the CNOT clears its qubit 1, and XX
    // with it.
    let piece = dag.single_step_synthesis(&Metric::COUNT, false);
    assert_eq!(piece.gates, vec![CliffordGate::CNOT(1, 0)]);
    // The CNOT acts on all the operators, those that are gone too.
    assert_eq!(dag.pauli_set.get(0), (false, "ZZ".to_owned()));
    assert_eq!(dag.pauli_set.get(1), (false, "XI".to_owned()));
    assert_eq!(dag.pauli_set.get(2), (false, "ZI".to_owned()));
    assert_eq!(dag.pauli_set.get(3), (false, "IX".to_owned()));
    assert_eq!(dag.dag.alive, vec![false, false, false, false, true]);
    assert_eq!(dag.front_layer.len(), 1);
    assert_eq!(dag.front_layer.get(0), (true, "ZX".to_owned()));
}

#[test]
fn a_pauli_dag_from_a_set() {
    let pset = PauliSet::from_slice(&strings(&["XY", "YX", "ZZ"]));
    let dag = PauliDag::from_pauli_set(pset.clone());
    assert_eq!(dag.pauli_set, pset);
    assert_eq!(dag.dag.edges, vec![Vec::<usize>::new(); 3]);
    assert_eq!(dag.front_layer.len(), 3);
    assert_eq!(dag.front_layer.n, 2);
}

#[test]
fn the_order_preserving_synthesis_of_five_operators() {
    let axes = strings(&["ZI", "XI", "ZZ", "XX", "YY"]);
    let mut input = PauliSet::from_slice(&axes);
    let before = input.clone();
    let circuit = pauli_network_synthesis_no_permutation(&mut input, &Metric::COUNT, false);
    assert_eq!(input, before);
    assert_eq!(circuit.nqbits, 2);
    assert_eq!(
        circuit.gates,
        vec![CliffordGate::CNOT(1, 0), CliffordGate::H(0), CliffordGate::CNOT(1, 0)]
    );
    assert!(check_circuit(&axes, &circuit));
}

#[test]
fn the_order_preserving_synthesis_of_no_operator() {
    let axes: Vec<String> = Vec::new();
    let mut input = PauliSet::from_slice(&axes);
    let circuit = pauli_network_synthesis_no_permutation(&mut input, &Metric::DEPTH, false);
    assert_eq!(circuit.nqbits, 0);
    assert!(circuit.gates.is_empty());
}

#[test]
fn the_network_without_shuffles_is_the_network_of_the_method() {
    let axes = strings(&["XZYX", "XXIY", "ZZYI", "XXZZ", "ZYZY"]);
    for metric in [Metric::COUNT, Metric::DEPTH] {
        for skip_sort in [false, true] {
            let mut input = PauliSet::from_slice(&axes);
            let before = input.clone();
            let kept = greedy_pauli_network(&mut input, &metric, true, 0, skip_sort);
            assert_eq!(input, before);
            let direct = pauli_network_synthesis_no_permutation(&mut input, &metric, skip_sort);
            assert_eq!(kept.gates, direct.gates);
            let free = greedy_pauli_network(&mut input, &metric, false, 0, skip_sort);
            assert_eq!(input, before);
            let direct = pauli_network_synthesis(&mut input, &metric, skip_sort);
            assert_eq!(free.gates, direct.gates);
        }
    }
}

#[test]
fn test_shuffle() {
    let mut operator_sequence = PauliSet::new(4);
    operator_sequence.insert("XZYX", false);
    operator_sequence.insert("XXIY", false);
    operator_sequence.insert("ZZYI", false);
    operator_sequence.insert("XZZZ", false);
    operator_sequence.insert("ZYZY", false);

    let metric = Metric::COUNT;
    let preserve_order = true;
    let nshuffles = 10;

    let result = greedy_pauli_network(
        &mut operator_sequence,
        &metric,
        preserve_order,
        nshuffles,
        false,
    );
    assert!(check_circuit(
        &[
            "XZYX".to_owned(),
            "XXIY".to_owned(),
            "ZZYI".to_owned(),
            "XZZZ".to_owned(),
            "ZYZY".to_owned(),
        ],
        &result,
    ));
}

#[test]
fn shuffles_never_cost_more() {
    let axes = strings(&["XZYXI", "XXIYZ", "ZZYIX", "XXZZY", "ZYZYZ", "IYXZX"]);
    for metric in [Metric::COUNT, Metric::DEPTH] {
        for preserve_order in [false, true] {
            let mut input = PauliSet::from_slice(&axes);
            let base = greedy_pauli_network(&mut input, &metric, preserve_order, 0, false);
            let best = greedy_pauli_network(&mut input, &metric, preserve_order, 8, false);
            assert!(metric.on_circuit(&best) <= metric.on_circuit(&base));
            assert!(check_circuit(&axes, &best));
            assert_eq!(best.nqbits, 5);
        }
    }
}

#[test]
fn a_shuffle_relabels_the_qubits() {
    let axes = strings(&["XYZII", "IZZXY", "YIIXZ"]);
    let mut pset = PauliSet::from_slice(&axes);
    let permutation = permute_input(&mut pset);
    let mut seen = permutation.clone();
    seen.sort();
    assert_eq!(seen, vec![0, 1, 2, 3, 4]);
    for (k, axis) in axes.iter().enumerate() {
        let letters: Vec<char> = axis.chars().collect();
        let moved: String = permutation.iter().map(|q| letters[*q]).collect();
        assert_eq!(pset.get(k), (false, moved));
    }
    let mut one = PauliSet::from_slice(&strings(&["X", "Z"]));
    assert_eq!(permute_input(&mut one), vec![0]);
    assert_eq!(one.get(0), (false, "X".to_owned()));
}

#[test]
fn a_circuit_written_through_a_relabeling() {
    let mut circuit = rustiq::clifford_circuit::CliffordCircuit::new(3);
    circuit.gates = vec![
        CliffordGate::H(0),
        CliffordGate::S(1),
        CliffordGate::Sd(2),
        CliffordGate::SqrtX(0),
        CliffordGate::SqrtXd(1),
        CliffordGate::CNOT(0, 2),
        CliffordGate::CZ(2, 1),
    ];
    let permuted = permute_circuit(&circuit, &vec![2, 0, 1]);
    assert_eq!(permuted.nqbits, 3);
    assert_eq!(
        permuted.gates,
        vec![
            CliffordGate::H(2),
            CliffordGate::S(0),
            CliffordGate::Sd(1),
            CliffordGate::SqrtX(2),
            CliffordGate::SqrtXd(0),
            CliffordGate::CNOT(2, 1),
            CliffordGate::CZ(1, 0),
        ]
    );
}
