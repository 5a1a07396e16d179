use rand::Rng;
use rustiq::clifford_circuit::{CliffordCircuit, CliffordGate};
use rustiq::greedy_order_preserving::pauli_network_synthesis_no_permutation;
use rustiq::matching::maximum_matching_pairs;
use rustiq::metric::Metric;
use rustiq::pauli_set::PauliSet;
use rustiq::synthesis::{check_circuit, greedy_pauli_network, pauli_network_synthesis};

fn axes() -> Vec<String> {
    vec!["XX".to_owned(), "ZZ".to_owned(), "YY".to_owned()]
}

#[test]
fn test_matching() {
    // The example graph:
    //
    //    +-- b ---- d ---- f
    //   /    |      |
    //  a     |      |
    //   \    |      |
    //    +-- c ---- e
    //
    // Maximum matching: { (a, b), (c, e), (d, f) }
    let (a, b, c, d, e, f) = (0, 1, 2, 3, 4, 5);
    let edges = vec![
        (a, b, 1),
        (a, c, 1),
        (b, c, 1),
        (b, d, 1),
        (c, e, 1),
        (d, e, 1),
        (d, f, 1),
    ];
    let matching = maximum_matching_pairs(6, &edges);
    assert!(matching.contains(&(a, b)));
    assert!(matching.contains(&(c, e)));
    assert_eq!(matching.iter().find(|p| p.0 == d).map(|p| p.1), Some(f));
    assert_eq!(matching.iter().find(|p| p.1 == f).map(|p| p.0), Some(d));
}

#[test]
fn count_synthesis() {
    let axes = axes();
    let mut input = PauliSet::from_slice(&axes);
    let circuit = pauli_network_synthesis(&mut input, &Metric::COUNT, false);
    println!("{circuit:?}");
    assert!(check_circuit(&axes, &circuit))
}

#[test]
fn depth_synthesis() {
    let axes = axes();
    let mut input = PauliSet::from_slice(&axes);
    let circuit = pauli_network_synthesis(&mut input, &Metric::DEPTH, false);
    println!("{circuit:?}");
    assert!(check_circuit(&axes, &circuit))
}

#[test]
fn count_synthesis_ss() {
    let axes = axes();
    let mut input = PauliSet::from_slice(&axes);
    let circuit = pauli_network_synthesis(&mut input, &Metric::COUNT, true);
    println!("{circuit:?}");
    assert!(check_circuit(&axes, &circuit))
}

#[test]
fn depth_synthesis_ss() {
    let axes = axes();
    let mut input = PauliSet::from_slice(&axes);
    let circuit = pauli_network_synthesis(&mut input, &Metric::DEPTH, true);
    println!("{circuit:?}");
    assert!(check_circuit(&axes, &circuit))
}

#[test]
fn greedy_pauli_network_count_synthesis() {
    let axes = axes();
    let mut input = PauliSet::from_slice(&axes);
    let circuit = pauli_network_synthesis(&mut input, &Metric::COUNT, false);
    println!("{circuit:?}");
    assert!(check_circuit(&axes, &circuit))
}

#[test]
fn greedy_pauli_network_depth_synthesis() {
    let axes = axes();
    let mut input = PauliSet::from_slice(&axes);
    let circuit = pauli_network_synthesis(&mut input, &Metric::DEPTH, false);
    println!("{circuit:?}");
    assert!(check_circuit(&axes, &circuit))
}

#[test]
fn greedy_pauli_network_count_synthesis_ss() {
    let axes = axes();
    let mut input = PauliSet::from_slice(&axes);
    let circuit = pauli_network_synthesis(&mut input, &Metric::COUNT, true);
    println!("{circuit:?}");
    assert!(check_circuit(&axes, &circuit))
}

#[test]
fn greedy_pauli_network_depth_synthesis_ss() {
    let axes = axes();
    let mut input = PauliSet::from_slice(&axes);
    let circuit = pauli_network_synthesis(&mut input, &Metric::DEPTH, true);
    println!("{circuit:?}");
    assert!(check_circuit(&axes, &circuit))
}

#[test]
fn greedy_order_preserving_count_synthesis() {
    let axes = axes();
    let mut input = PauliSet::from_slice(&axes);
    let circuit = pauli_network_synthesis_no_permutation(&mut input, &Metric::COUNT, false);
    println!("{circuit:?}");
    assert!(check_circuit(&axes, &circuit))
}

#[test]
fn greedy_order_preserving_depth_synthesis() {
    let axes = axes();
    let mut input = PauliSet::from_slice(&axes);
    let circuit = pauli_network_synthesis_no_permutation(&mut input, &Metric::DEPTH, false);
    println!("{circuit:?}");
    assert!(check_circuit(&axes, &circuit))
}

#[test]
fn greedy_order_preserving_count_synthesis_ss() {
    let axes = axes();
    let mut input = PauliSet::from_slice(&axes);
    let circuit = pauli_network_synthesis_no_permutation(&mut input, &Metric::COUNT, true);
    println!("{circuit:?}");
    assert!(check_circuit(&axes, &circuit))
}

#[test]
fn greedy_order_preserving_depth_synthesis_ss() {
    let axes = axes();
    let mut input = PauliSet::from_slice(&axes);
    let circuit = pauli_network_synthesis_no_permutation(&mut input, &Metric::DEPTH, true);
    println!("{circuit:?}");
    assert!(check_circuit(&axes, &circuit))
}

fn five_axes() -> Vec<String> {
    vec![
        "XZYX".to_owned(),
        "XXIY".to_owned(),
        "ZZYI".to_owned(),
        "XXZZ".to_owned(),
        "ZYZY".to_owned(),
    ]
}

#[test]
fn test_inifinte_loop_identities() {
    let mut operator_sequence = PauliSet::new(4);
    operator_sequence.insert("XZYX", false);
    operator_sequence.insert("XXIY", false);
    operator_sequence.insert("IIII", false);
    operator_sequence.insert("ZZYI", false);
    operator_sequence.insert("XXZZ", false);
    operator_sequence.insert("ZYZY", false);

    let metric = Metric::DEPTH;
    let preserve_order = true;
    let nshuffles = 0;

    let _result = greedy_pauli_network(
        &mut operator_sequence,
        &metric,
        preserve_order,
        nshuffles,
        false,
    );
}

#[test]
fn every_policy_covers_five_operators() {
    let axes = five_axes();
    for metric in [Metric::COUNT, Metric::DEPTH] {
        for skip_sort in [false, true] {
            let mut input = PauliSet::from_slice(&axes);
            let circuit = pauli_network_synthesis(&mut input, &metric, skip_sort);
            assert_eq!(input.len(), 0);
            assert_eq!(circuit.nqbits, 4);
            assert!(check_circuit(&axes, &circuit));
            let mut input = PauliSet::from_slice(&axes);
            let circuit = pauli_network_synthesis_no_permutation(&mut input, &metric, skip_sort);
            assert_eq!(input.len(), 5);
            assert!(check_circuit(&axes, &circuit));
        }
    }
}

#[test]
fn count_synthesis_of_three_operators() {
    let axes = axes();
    let mut input = PauliSet::from_slice(&axes);
    let circuit = pauli_network_synthesis(&mut input, &Metric::COUNT, false);
    assert_eq!(
        circuit.gates,
        vec![CliffordGate::CNOT(1, 0), CliffordGate::H(0), CliffordGate::CNOT(1, 0)]
    );
    // Every operator is trivial at some point of the replay: XX and ZZ after
    // the first gate, YY after the last one.
    let mut replay = PauliSet::from_slice(&axes);
    replay.conjugate_with_gate(&circuit.gates[0]);
    assert_eq!(replay.get(0), (false, "IX".to_owned()));
    assert_eq!(replay.get(1), (false, "ZI".to_owned()));
    assert_eq!(replay.get(2), (true, "ZX".to_owned()));
    replay.conjugate_with_gate(&circuit.gates[1]);
    replay.conjugate_with_gate(&circuit.gates[2]);
    assert_eq!(replay.support_size(2), 1);
    assert!(check_circuit(&axes, &circuit));
}

#[test]
fn trivial_operators_need_no_gate() {
    let axes = vec!["XI".to_owned(), "IX".to_owned()];
    for metric in [Metric::COUNT, Metric::DEPTH] {
        let mut input = PauliSet::from_slice(&axes);
        let circuit = pauli_network_synthesis(&mut input, &metric, false);
        assert!(circuit.gates.is_empty());
        let mut input = PauliSet::from_slice(&axes);
        let circuit = pauli_network_synthesis_no_permutation(&mut input, &metric, false);
        assert!(circuit.gates.is_empty());
    }
}

#[test]
fn no_operator_gives_the_empty_circuit() {
    let axes: Vec<String> = Vec::new();
    let mut input = PauliSet::from_slice(&axes);
    let circuit = pauli_network_synthesis(&mut input, &Metric::COUNT, false);
    assert_eq!(circuit.nqbits, 0);
    assert!(circuit.gates.is_empty());
    assert!(check_circuit(&axes, &circuit));
}

#[test]
fn synthesis_is_deterministic() {
    let axes = five_axes();
    for metric in [Metric::COUNT, Metric::DEPTH] {
        let mut first = PauliSet::from_slice(&axes);
        let mut second = PauliSet::from_slice(&axes);
        let a = pauli_network_synthesis(&mut first, &metric, false);
        let b = pauli_network_synthesis(&mut second, &metric, false);
        assert_eq!(a.gates, b.gates);
        let a = pauli_network_synthesis_no_permutation(&mut first, &metric, false);
        let b = pauli_network_synthesis_no_permutation(&mut second, &metric, false);
        assert_eq!(a.gates, b.gates);
    }
}

#[test]
fn count_synthesis_of_one_pair() {
    // XX is cleared on its second qubit by one CNOT from the first qubit of
    // the pair, which is the larger qubit.
    let axes = vec!["XX".to_owned()];
    let mut input = PauliSet::from_slice(&axes);
    let circuit = pauli_network_synthesis(&mut input, &Metric::COUNT, false);
    assert_eq!(circuit.gates, vec![CliffordGate::CNOT(1, 0)]);
    assert_eq!(circuit.cnot_count(), 1);
    assert_eq!(circuit.cnot_depth(), 1);
}

#[test]
fn check_circuit_refuses_a_circuit_that_leaves_an_operator() {
    let axes = axes();
    let circuit = CliffordCircuit::new(2);
    assert!(!check_circuit(&axes, &circuit));
}

fn random_axes(nqbits: usize, noperators: usize) -> Vec<String> {
    let mut rng = rand::thread_rng();
    (0..noperators)
        .map(|_| {
            (0..nqbits)
                .map(|_| ['I', 'X', 'Y', 'Z'][rng.gen_range(0..4)])
                .collect()
        })
        .collect()
}

#[test]
fn random_instances_are_covered() {
    for round in 0..4 {
        let axes = random_axes(5 + round, 30);
        for metric in [Metric::COUNT, Metric::DEPTH] {
            for skip_sort in [false, true] {
                let mut input = PauliSet::from_slice(&axes);
                let circuit = pauli_network_synthesis(&mut input, &metric, skip_sort);
                assert_eq!(input.len(), 0);
                assert!(check_circuit(&axes, &circuit));
                let mut input = PauliSet::from_slice(&axes);
                let circuit =
                    pauli_network_synthesis_no_permutation(&mut input, &metric, skip_sort);
                assert!(check_circuit(&axes, &circuit));
                for gate in circuit.gates.iter() {
                    assert!(gate.fits_in(5 + round));
                }
            }
        }
    }
}

#[test]
fn a_larger_instance_is_covered() {
    let axes = random_axes(12, 100);
    let mut input = PauliSet::from_slice(&axes);
    let circuit = pauli_network_synthesis(&mut input, &Metric::COUNT, false);
    assert!(check_circuit(&axes, &circuit));
    let mut input = PauliSet::from_slice(&axes);
    let circuit = pauli_network_synthesis_no_permutation(&mut input, &Metric::DEPTH, false);
    assert!(check_circuit(&axes, &circuit));
}

#[test]
fn the_network_does_not_depend_on_the_history_of_the_bucket() {
    let axes = five_axes();
    for metric in [Metric::COUNT, Metric::DEPTH] {
        for skip_sort in [false, true] {
            let mut fresh = PauliSet::from_slice(&axes);
            // The same operators after 70 operators have entered and left.
            let mut used = PauliSet::new(4);
            for _ in 0..70 {
                used.insert("XYZX", true);
            }
            for axis in axes.iter() {
                used.insert(axis, false);
            }
            for _ in 0..70 {
                used.pop();
            }
            assert_eq!(used.start_offset, 70);
            assert_eq!(used.nstrides, 2);
            let a = pauli_network_synthesis(&mut fresh, &metric, skip_sort);
            let b = pauli_network_synthesis(&mut used, &metric, skip_sort);
            assert_eq!(a.gates, b.gates);
        }
    }
}

fn trivial_at(axes: &[String], circuit: &CliffordCircuit) -> Vec<Vec<bool>> {
    let mut replay = PauliSet::from_slice(axes);
    let mut seen: Vec<Vec<bool>> = (0..axes.len())
        .map(|i| vec![replay.support_size(i) <= 1])
        .collect();
    for gate in circuit.gates.iter() {
        replay.conjugate_with_gate(gate);
        for (i, row) in seen.iter_mut().enumerate() {
            row.push(replay.support_size(i) <= 1);
        }
    }
    seen
}

#[test]
fn the_order_preserving_network_covers_in_order() {
    for round in 0..4 {
        let axes = random_axes(4 + round, 20);
        let set = PauliSet::from_slice(&axes);
        for metric in [Metric::COUNT, Metric::DEPTH] {
            let mut input = PauliSet::from_slice(&axes);
            let circuit = pauli_network_synthesis_no_permutation(&mut input, &metric, false);
            let seen = trivial_at(&axes, &circuit);
            // The earliest point of each operator that is no earlier than
            // the points of the earlier operators that anticommute with it.
            let mut times: Vec<usize> = Vec::new();
            for j in 0..axes.len() {
                let mut from = 0;
                for i in 0..j {
                    if !set.commute(i, j) && times[i] > from {
                        from = times[i];
                    }
                }
                let time = (from..seen[j].len()).find(|k| seen[j][*k]);
                assert!(time.is_some());
                times.push(time.unwrap_or(0));
            }
        }
    }
}
