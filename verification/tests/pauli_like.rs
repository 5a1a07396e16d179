use rustiq::clifford_circuit::{CliffordCircuit, CliffordGate};
use rustiq::pauli::Pauli;
use rustiq::pauli_like::PauliLike;
use rustiq::pauli_set::PauliSet;

fn pauli(letters: &str, phase: u8) -> Pauli {
    let x = letters.chars().map(|c| c == 'X' || c == 'Y');
    let z = letters.chars().map(|c| c == 'Z' || c == 'Y');
    Pauli::from_vec_bool(x.chain(z).collect(), phase)
}

fn letters(p: &Pauli) -> String {
    (0..p.n)
        .map(|q| match (p.data[q], p.data[q + p.n]) {
            (true, false) => 'X',
            (false, true) => 'Z',
            (true, true) => 'Y',
            _ => 'I',
        })
        .collect()
}

fn all_gates() -> Vec<CliffordGate> {
    vec![
        CliffordGate::H(0),
        CliffordGate::H(1),
        CliffordGate::S(0),
        CliffordGate::Sd(1),
        CliffordGate::SqrtX(1),
        CliffordGate::SqrtXd(0),
        CliffordGate::CNOT(0, 1),
        CliffordGate::CNOT(1, 0),
        CliffordGate::CZ(0, 1),
    ]
}

#[test]
fn a_pauli_is_conjugated_like_an_operator_of_a_set() {
    for first in ["I", "X", "Y", "Z"] {
        for second in ["I", "X", "Y", "Z"] {
            let axis = format!("{first}{second}");
            for gate in all_gates() {
                let mut alone = pauli(&axis, 0);
                alone.conjugate_with_gate(&gate);
                let mut pset = PauliSet::new(2);
                pset.insert(&axis, false);
                pset.conjugate_with_gate(&gate);
                let (sign, image) = pset.get(0);
                assert_eq!(letters(&alone), image);
                assert_eq!(alone.phase, if sign { 2 } else { 0 });
            }
        }
    }
}

#[test]
fn the_gates_of_a_pauli() {
    let mut p = pauli("YX", 0);
    p.h(0);
    assert_eq!((letters(&p), p.phase), ("YX".to_owned(), 2));
    p.s(0);
    assert_eq!((letters(&p), p.phase), ("XX".to_owned(), 0));
    p.cnot(0, 1);
    assert_eq!((letters(&p), p.phase), ("XI".to_owned(), 0));
    p.sd(0);
    assert_eq!((letters(&p), p.phase), ("YI".to_owned(), 2));
    p.sqrt_x(0);
    assert_eq!((letters(&p), p.phase), ("ZI".to_owned(), 2));
    p.sqrt_xd(0);
    assert_eq!((letters(&p), p.phase), ("YI".to_owned(), 2));
    p.cz(0, 1);
    assert_eq!((letters(&p), p.phase), ("YZ".to_owned(), 2));
    // A phase of one quarter turn becomes three quarter turns.
    let mut q = pauli("Y", 1);
    q.h(0);
    assert_eq!(q.phase, 3);
    q.h(0);
    assert_eq!(q.phase, 1);
}

#[test]
fn the_trait_conjugates_a_set_as_its_own_methods_do() {
    let axes = vec!["XYZ".to_owned(), "ZZI".to_owned(), "IYX".to_owned()];
    let mut circuit = CliffordCircuit::new(3);
    circuit.gates = vec![
        CliffordGate::H(2),
        CliffordGate::CZ(0, 2),
        CliffordGate::SqrtX(1),
        CliffordGate::CNOT(2, 1),
        CliffordGate::Sd(0),
    ];
    let mut by_trait = PauliSet::from_slice(&axes);
    PauliLike::conjugate_with_circuit(&mut by_trait, &circuit);
    let mut by_method = PauliSet::from_slice(&axes);
    by_method.conjugate_with_circuit(&circuit);
    assert_eq!(by_trait, by_method);
    let mut gate_by_gate = PauliSet::from_slice(&axes);
    for gate in circuit.gates.iter() {
        PauliLike::conjugate_with_gate(&mut gate_by_gate, gate);
    }
    assert_eq!(gate_by_gate, by_method);
    let mut one = PauliSet::from_slice(&axes);
    PauliLike::cz(&mut one, 0, 1);
    let mut other = PauliSet::from_slice(&axes);
    other.cz(0, 1);
    assert_eq!(one, other);
}
