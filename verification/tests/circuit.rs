use rustiq::clifford_circuit::{CliffordCircuit, CliffordGate};
use rustiq::metric::Metric;

fn circuit(nqbits: usize, gates: &[CliffordGate]) -> CliffordCircuit {
    let mut circuit = CliffordCircuit::new(nqbits);
    for gate in gates {
        circuit.gates.push(*gate);
    }
    circuit
}

#[test]
fn inverse_gates() {
    assert_eq!(CliffordGate::S(3).dagger(), CliffordGate::Sd(3));
    assert_eq!(CliffordGate::Sd(3).dagger(), CliffordGate::S(3));
    assert_eq!(CliffordGate::SqrtX(1).dagger(), CliffordGate::SqrtXd(1));
    assert_eq!(CliffordGate::SqrtXd(1).dagger(), CliffordGate::SqrtX(1));
    assert_eq!(CliffordGate::H(0).dagger(), CliffordGate::H(0));
    assert_eq!(CliffordGate::CNOT(0, 2).dagger(), CliffordGate::CNOT(0, 2));
    assert_eq!(CliffordGate::CZ(2, 1).dagger(), CliffordGate::CZ(2, 1));
}

#[test]
fn gates_by_name() {
    assert_eq!(CliffordGate::CNOT(4, 2).to_vec(), ("CNOT".to_owned(), vec![4, 2]));
    assert_eq!(CliffordGate::CZ(0, 1).to_vec(), ("CZ".to_owned(), vec![0, 1]));
    assert_eq!(CliffordGate::H(7).to_vec(), ("H".to_owned(), vec![7]));
    assert_eq!(CliffordGate::S(1).to_vec(), ("S".to_owned(), vec![1]));
    assert_eq!(CliffordGate::Sd(1).to_vec(), ("Sd".to_owned(), vec![1]));
    assert_eq!(CliffordGate::SqrtX(2).to_vec(), ("SqrtX".to_owned(), vec![2]));
    assert_eq!(CliffordGate::SqrtXd(2).to_vec(), ("SqrtXd".to_owned(), vec![2]));
    let both = circuit(3, &[CliffordGate::H(1), CliffordGate::CNOT(1, 2)]);
    assert_eq!(
        both.to_vec(),
        vec![("H".to_owned(), vec![1]), ("CNOT".to_owned(), vec![1, 2])]
    );
}

#[test]
fn gates_that_fit() {
    assert!(CliffordGate::H(2).fits_in(3));
    assert!(!CliffordGate::H(3).fits_in(3));
    assert!(CliffordGate::CNOT(0, 2).fits_in(3));
    assert!(!CliffordGate::CNOT(0, 3).fits_in(3));
    assert!(!CliffordGate::CNOT(1, 1).fits_in(3));
    assert!(!CliffordGate::CZ(2, 2).fits_in(3));
}

#[test]
fn counts_and_depths() {
    let c = circuit(
        4,
        &[
            CliffordGate::CNOT(0, 1),
            CliffordGate::H(1),
            CliffordGate::CNOT(2, 3),
            CliffordGate::CZ(1, 2),
            CliffordGate::CNOT(0, 1),
            CliffordGate::S(3),
            CliffordGate::CNOT(0, 3),
        ],
    );
    assert_eq!(c.cnot_count(), 4);
    assert_eq!(c.entangling_count(), 5);
    // CNOT layers: (0,1) and (2,3) in layer 1, (0,1) in layer 2, (0,3) in
    // layer 3.
    assert_eq!(c.cnot_depth(), 3);
    // With the CZ: (0,1), (2,3) in layer 1, CZ(1,2) in layer 2, (0,1) in
    // layer 3, (0,3) in layer 4.
    assert_eq!(c.entangling_depth(), 4);
    assert_eq!(Metric::COUNT.on_circuit(&c), 5);
    assert_eq!(Metric::DEPTH.on_circuit(&c), 4);
}

#[test]
fn costs_of_the_empty_circuit() {
    for nqbits in [0, 3] {
        let c = CliffordCircuit::new(nqbits);
        assert_eq!(c.nqbits, nqbits);
        assert!(c.gates.is_empty());
        assert_eq!(c.cnot_count(), 0);
        assert_eq!(c.entangling_count(), 0);
        assert_eq!(c.cnot_depth(), 0);
        assert_eq!(c.entangling_depth(), 0);
    }
}

#[test]
fn one_qubit_gates_have_no_depth() {
    let c = circuit(2, &[CliffordGate::H(0), CliffordGate::S(1), CliffordGate::SqrtX(0)]);
    assert_eq!(c.cnot_depth(), 0);
    assert_eq!(c.entangling_depth(), 0);
    assert_eq!(c.entangling_count(), 0);
}

#[test]
fn extend_with_appends() {
    let mut a = circuit(2, &[CliffordGate::H(0)]);
    let b = circuit(2, &[CliffordGate::CNOT(0, 1), CliffordGate::S(1)]);
    a.extend_with(&b);
    assert_eq!(
        a.gates,
        vec![CliffordGate::H(0), CliffordGate::CNOT(0, 1), CliffordGate::S(1)]
    );
    assert_eq!(a.nqbits, 2);
    assert_eq!(b.gates.len(), 2);
}

#[test]
fn dagger_reverses_and_inverts() {
    let c = circuit(
        2,
        &[CliffordGate::S(0), CliffordGate::CNOT(0, 1), CliffordGate::SqrtXd(1)],
    );
    let d = c.dagger();
    assert_eq!(d.nqbits, 2);
    assert_eq!(
        d.gates,
        vec![CliffordGate::SqrtX(1), CliffordGate::CNOT(0, 1), CliffordGate::Sd(0)]
    );
    assert_eq!(d.dagger().gates, c.gates);
}

#[test]
fn random_circuits_fit() {
    let c = CliffordCircuit::random(3, 200);
    assert_eq!(c.nqbits, 3);
    assert_eq!(c.gates.len(), 200);
    for gate in c.gates.iter() {
        assert!(gate.fits_in(3));
        assert!(matches!(
            gate,
            CliffordGate::CNOT(_, _) | CliffordGate::H(_) | CliffordGate::S(_)
        ));
    }
    assert!(c.gates.iter().any(|g| matches!(g, CliffordGate::CNOT(_, _))));
    assert!(CliffordCircuit::random(1, 0).gates.is_empty());
}

#[test]
fn metrics_by_name() {
    assert_eq!(Metric::from_string("count"), Ok(Metric::COUNT));
    assert_eq!(Metric::from_string("depth"), Ok(Metric::DEPTH));
    assert_eq!(
        Metric::from_string("width"),
        Err("Unknown metric name `width`".to_owned())
    );
    assert_eq!(
        Metric::from_string(""),
        Err("Unknown metric name ``".to_owned())
    );
    assert_eq!(
        Metric::from_string("Count"),
        Err("Unknown metric name `Count`".to_owned())
    );
}
