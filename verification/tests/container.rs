use rustiq::bits::{get_offset, get_stride, test_bit};
use rustiq::clifford_circuit::{CliffordCircuit, CliffordGate};
use rustiq::pauli::Pauli;
use rustiq::pauli_set::PauliSet;

const LETTERS: [&str; 4] = ["I", "X", "Y", "Z"];

fn after_one_qubit_gate(gate: CliffordGate, letter: &str) -> (bool, String) {
    let mut pset = PauliSet::new(1);
    pset.insert(letter, false);
    pset.conjugate_with_gate(&gate);
    pset.get(0)
}

fn after_two_qubit_gate(gate: CliffordGate, letters: &str) -> (bool, String) {
    let mut pset = PauliSet::new(2);
    pset.insert(letters, false);
    pset.conjugate_with_gate(&gate);
    pset.get(0)
}

fn expect_table(gate: CliffordGate, table: [(bool, &str); 4]) {
    for (letter, (sign, image)) in LETTERS.iter().zip(table.iter()) {
        assert_eq!(after_one_qubit_gate(gate, letter), (*sign, (*image).to_owned()));
    }
}

#[test]
fn h_conjugation_table() {
    expect_table(
        CliffordGate::H(0),
        [(false, "I"), (false, "Z"), (true, "Y"), (false, "X")],
    );
}

#[test]
fn s_conjugation_table() {
    expect_table(
        CliffordGate::S(0),
        [(false, "I"), (false, "Y"), (true, "X"), (false, "Z")],
    );
}

#[test]
fn sd_conjugation_table() {
    expect_table(
        CliffordGate::Sd(0),
        [(false, "I"), (true, "Y"), (false, "X"), (false, "Z")],
    );
}

#[test]
fn sqrt_x_conjugation_table() {
    expect_table(
        CliffordGate::SqrtX(0),
        [(false, "I"), (false, "X"), (false, "Z"), (true, "Y")],
    );
}

#[test]
fn sqrt_xd_conjugation_table() {
    expect_table(
        CliffordGate::SqrtXd(0),
        [(false, "I"), (false, "X"), (true, "Z"), (false, "Y")],
    );
}

#[test]
fn cz_conjugation_table() {
    let table = [
        ("II", false, "II"),
        ("IX", false, "ZX"),
        ("IY", false, "ZY"),
        ("IZ", false, "IZ"),
        ("XI", false, "XZ"),
        ("XX", false, "YY"),
        ("XY", true, "YX"),
        ("XZ", false, "XI"),
        ("YI", false, "YZ"),
        ("YX", true, "XY"),
        ("YY", false, "XX"),
        ("YZ", false, "YI"),
        ("ZI", false, "ZI"),
        ("ZX", false, "IX"),
        ("ZY", false, "IY"),
        ("ZZ", false, "ZZ"),
    ];
    for (input, sign, image) in table {
        assert_eq!(
            after_two_qubit_gate(CliffordGate::CZ(0, 1), input),
            (sign, image.to_owned())
        );
    }
}

#[test]
fn cnot_with_the_target_first() {
    // Control on qubit 1, target on qubit 0: the table of CNOT read with
    // the two letters exchanged.
    assert_eq!(
        after_two_qubit_gate(CliffordGate::CNOT(1, 0), "XX"),
        (false, "IX".to_owned())
    );
    assert_eq!(
        after_two_qubit_gate(CliffordGate::CNOT(1, 0), "ZX"),
        (true, "YY".to_owned())
    );
    assert_eq!(
        after_two_qubit_gate(CliffordGate::CNOT(1, 0), "YY"),
        (true, "ZX".to_owned())
    );
}

#[test]
fn a_gate_and_its_inverse_cancel() {
    let gates = [
        CliffordGate::H(1),
        CliffordGate::S(0),
        CliffordGate::Sd(2),
        CliffordGate::SqrtX(1),
        CliffordGate::SqrtXd(0),
        CliffordGate::CNOT(2, 0),
        CliffordGate::CZ(1, 2),
    ];
    let axes = vec!["XYZ".to_owned(), "YYI".to_owned(), "ZXY".to_owned()];
    for gate in gates {
        let mut pset = PauliSet::from_slice(&axes);
        pset.insert("YZX", true);
        let before = pset.clone();
        pset.conjugate_with_gate(&gate);
        pset.conjugate_with_gate(&gate.dagger());
        assert_eq!(pset, before);
    }
}

#[test]
fn a_gate_acts_on_every_operator() {
    let mut pset = PauliSet::new(2);
    for k in 0..130 {
        pset.insert(if k % 2 == 0 { "XY" } else { "ZI" }, k % 3 == 0);
    }
    assert_eq!(pset.nstrides, 3);
    pset.h(0);
    for k in 0..130 {
        let expected = if k % 2 == 0 { "ZY" } else { "XI" };
        assert_eq!(pset.get(k), (k % 3 == 0, expected.to_owned()));
    }
}

#[test]
fn conjugation_by_a_circuit_applies_the_gates_in_order() {
    let mut circuit = CliffordCircuit::new(2);
    circuit.gates.push(CliffordGate::H(0));
    circuit.gates.push(CliffordGate::CNOT(0, 1));
    let mut pset = PauliSet::new(2);
    pset.insert("ZI", false);
    pset.insert("IZ", false);
    pset.conjugate_with_circuit(&circuit);
    // Z on qubit 0 becomes X by H and then XX by the CNOT.
    assert_eq!(pset.get(0), (false, "XX".to_owned()));
    assert_eq!(pset.get(1), (false, "ZZ".to_owned()));
}

#[test]
fn commutation_is_symmetric_and_is_the_parity_of_the_clashes() {
    let axes: Vec<String> = ["ZI", "XI", "ZZ", "XX", "YY", "XZ", "IY", "II"]
        .iter()
        .map(|s| (*s).to_owned())
        .collect();
    let pset = PauliSet::from_slice(&axes);
    for i in 0..axes.len() {
        for j in 0..axes.len() {
            let clashes = axes[i]
                .chars()
                .zip(axes[j].chars())
                .filter(|(a, b)| *a != 'I' && *b != 'I' && a != b)
                .count();
            assert_eq!(pset.commute(i, j), clashes % 2 == 0);
            assert_eq!(pset.commute(i, j), pset.commute(j, i));
        }
    }
}

#[test]
fn insert_returns_the_index_and_reads_other_characters_as_identity() {
    let mut pset = PauliSet::new(3);
    assert_eq!(pset.insert("XYZ", true), 0);
    assert_eq!(pset.insert("X?Z", false), 1);
    assert_eq!(pset.insert("Y", false), 2);
    assert_eq!(pset.len(), 3);
    assert_eq!(pset.get(0), (true, "XYZ".to_owned()));
    assert_eq!(pset.get(1), (false, "XIZ".to_owned()));
    assert_eq!(pset.get(2), (false, "YII".to_owned()));
}

#[test]
fn the_storage_grows_by_one_word_for_64_operators() {
    let mut pset = PauliSet::new(1);
    for k in 0..64 {
        assert_eq!(pset.insert("X", false), k);
    }
    assert_eq!(pset.nstrides, 1);
    assert_eq!(pset.insert("Z", true), 64);
    assert_eq!(pset.nstrides, 2);
    assert_eq!(pset.data_array[1][1], 1);
    assert_eq!(pset.phases[1], 1);
    assert_eq!(pset.get(64), (true, "Z".to_owned()));
}

#[test]
fn bits_of_an_operator() {
    let mut pset = PauliSet::new(3);
    pset.insert("XYZ", true);
    assert_eq!(
        pset.get_as_vec_bool(0),
        (true, vec![true, true, false, false, true, true])
    );
    let index = pset.insert_vec_bool(&vec![false, true, true, true, false, true], false);
    assert_eq!(index, 1);
    assert_eq!(pset.get(1), (false, "ZXY".to_owned()));
    // Missing bits are zero.
    pset.insert_vec_bool(&vec![true], true);
    assert_eq!(pset.get(2), (true, "XII".to_owned()));
}

#[test]
fn operators_as_paulis() {
    let mut pset = PauliSet::new(2);
    pset.insert("XZ", true);
    let pauli = pset.get_as_pauli(0);
    assert_eq!(pauli.n, 2);
    assert_eq!(pauli.data, vec![true, false, false, true]);
    assert_eq!(pauli.phase, 2);
    assert_eq!(pset.insert_pauli(&pauli), 1);
    assert_eq!(pset.get(1), (true, "XZ".to_owned()));
    let positive = Pauli::from_vec_bool(vec![false, true, true, true], 0);
    pset.insert_pauli(&positive);
    assert_eq!(pset.get(2), (false, "ZY".to_owned()));
}

#[test]
fn support_of_an_operator() {
    let mut pset = PauliSet::new(5);
    pset.insert("IXIYZ", false);
    pset.insert("IIIII", false);
    assert_eq!(pset.get_support(0), vec![1, 3, 4]);
    assert_eq!(pset.support_size(0), 3);
    assert_eq!(pset.get_support(1), Vec::<usize>::new());
}

#[test]
fn count_id_counts_operators_and_no_freed_slot() {
    let mut pset = PauliSet::new(2);
    pset.insert("IX", false);
    pset.insert("IZ", false);
    pset.insert("XI", false);
    assert_eq!(pset.count_id(0), 2);
    assert_eq!(pset.count_id(1), 0);
    pset.pop();
    // The oldest operator is now IZ: one operator is I on qubit 0, none on
    // qubit 1.
    assert_eq!(pset.count_id(0), 1);
    assert_eq!(pset.count_id(1), 0);
    pset.pop();
    assert_eq!(pset.count_id(0), 0);
    assert_eq!(pset.count_id(1), 1);
    pset.pop();
    assert_eq!(pset.len(), 0);
    assert_eq!(pset.count_id(0), 0);
    assert_eq!(pset.count_id(1), 0);
}

#[test]
fn count_id_after_a_pop_starts_at_the_oldest_operator() {
    let mut pset = PauliSet::new(1);
    pset.insert("I", false);
    pset.insert("X", false);
    assert_eq!(pset.count_id(0), 1);
    pset.pop();
    assert_eq!(pset.count_id(0), 0);
}

#[test]
fn count_id_of_a_qubit_without_letters_is_the_number_of_operators() {
    let mut one = PauliSet::new(1);
    one.insert("I", false);
    assert_eq!(one.count_id(0), 1);
    let mut pset = PauliSet::new(2);
    for _ in 0..70 {
        pset.insert("XI", false);
    }
    assert_eq!(pset.count_id(0), 0);
    assert_eq!(pset.count_id(1), 70);
    pset.pop();
    assert_eq!(pset.count_id(1), 69);
    let empty = PauliSet::new(2);
    assert_eq!(empty.count_id(0), 0);
}

#[test]
fn count_id_finds_a_letter_in_a_later_word() {
    let mut pset = PauliSet::new(1);
    for _ in 0..100 {
        pset.insert("I", false);
    }
    pset.insert("Z", false);
    assert_eq!(pset.count_id(0), 100);
    for _ in 0..70 {
        pset.pop();
    }
    assert_eq!(pset.count_id(0), 30);
}

#[test]
fn clear_keeps_the_storage() {
    let mut pset = PauliSet::new(2);
    for _ in 0..65 {
        pset.insert("XY", true);
    }
    pset.pop();
    pset.clear();
    assert_eq!(pset.len(), 0);
    assert_eq!(pset.start_offset, 0);
    assert_eq!(pset.nstrides, 2);
    assert_eq!(pset.data_array, vec![vec![0u64, 0]; 4]);
    assert_eq!(pset.phases, vec![0u64, 0]);
    assert_eq!(pset.insert("ZZ", false), 0);
    assert_eq!(pset.get(0), (false, "ZZ".to_owned()));
}

#[test]
fn pop_takes_the_oldest_operator() {
    let mut pset = PauliSet::new(2);
    pset.insert("XX", true);
    pset.insert("YZ", false);
    pset.insert("ZI", true);
    pset.pop();
    assert_eq!(pset.len(), 2);
    assert_eq!(pset.get(0), (false, "YZ".to_owned()));
    assert_eq!(pset.get(1), (true, "ZI".to_owned()));
    assert_eq!(pset.insert("IY", false), 2);
    assert_eq!(pset.get(2), (false, "IY".to_owned()));
}

#[test]
fn the_sort_is_stable_and_keeps_the_signs() {
    let mut pset = PauliSet::new(3);
    pset.insert("XXI", false);
    pset.insert("ZII", true);
    pset.insert("YYY", false);
    pset.insert("IZZ", true);
    pset.insert("IXI", false);
    pset.insert("III", true);
    pset.pop();
    pset.support_size_sort();
    assert_eq!(pset.start_offset, 0);
    assert_eq!(pset.len(), 5);
    assert_eq!(pset.get(0), (true, "III".to_owned()));
    assert_eq!(pset.get(1), (true, "ZII".to_owned()));
    assert_eq!(pset.get(2), (false, "IXI".to_owned()));
    assert_eq!(pset.get(3), (true, "IZZ".to_owned()));
    assert_eq!(pset.get(4), (false, "YYY".to_owned()));
}

#[test]
fn swap_qbits_exchanges_two_letters() {
    let mut pset = PauliSet::new(3);
    pset.insert("XYZ", true);
    pset.insert("IZX", false);
    pset.swap_qbits(0, 2);
    assert_eq!(pset.get(0), (true, "ZYX".to_owned()));
    assert_eq!(pset.get(1), (false, "XZI".to_owned()));
    pset.swap_qbits(1, 1);
    assert_eq!(pset.get(0), (true, "ZYX".to_owned()));
}

#[test]
fn copy_is_equal_and_independent() {
    let mut pset = PauliSet::new(2);
    pset.insert("XY", true);
    let copy = pset.copy();
    assert_eq!(copy, pset);
    pset.h(0);
    assert_eq!(copy.get(0), (true, "XY".to_owned()));
    assert_eq!(pset.get(0), (true, "ZY".to_owned()));
}

#[test]
fn from_slice_takes_the_qubits_of_the_first_operator() {
    let axes = vec!["XYZI".to_owned(), "ZZ".to_owned()];
    let pset = PauliSet::from_slice(&axes);
    assert_eq!(pset.n, 4);
    assert_eq!(pset.len(), 2);
    assert_eq!(pset.nstrides, 1);
    assert_eq!(pset.get(0), (false, "XYZI".to_owned()));
    assert_eq!(pset.get(1), (false, "ZZII".to_owned()));
    let none: Vec<String> = Vec::new();
    let empty = PauliSet::from_slice(&none);
    assert_eq!(empty.n, 0);
    assert_eq!(empty.len(), 0);
}

#[test]
fn slots_and_words() {
    assert_eq!(get_stride(0), 0);
    assert_eq!(get_stride(63), 0);
    assert_eq!(get_stride(64), 1);
    assert_eq!(get_stride(200), 3);
    assert_eq!(get_offset(0), 0);
    assert_eq!(get_offset(63), 63);
    assert_eq!(get_offset(64), 0);
    assert_eq!(get_offset(200), 8);
    assert!(test_bit(0b100, 2));
    assert!(!test_bit(0b100, 1));
    assert!(test_bit(1 << 63, 63));
}

#[test]
fn paulis_commute_by_their_symplectic_product() {
    // X bits first, then Z bits.
    let xx = Pauli::from_vec_bool(vec![true, true, false, false], 0);
    let zz = Pauli::from_vec_bool(vec![false, false, true, true], 0);
    let zi = Pauli::from_vec_bool(vec![false, false, true, false], 0);
    assert!(xx.commutes(&zz));
    assert!(!xx.commutes(&zi));
    assert!(!zi.commutes(&xx));
    assert!(zz.commutes(&zi));
    let y = Pauli::new(1);
    assert_eq!(y.n, 1);
    assert_eq!(y.data, vec![true, true]);
    assert_eq!(y.phase, 0);
    assert!(y.commutes(&Pauli::new(1)));
    let odd = Pauli::from_vec_bool(vec![true, false, true], 3);
    assert_eq!(odd.n, 1);
    assert_eq!(odd.phase, 3);
}

#[test]
fn a_set_as_text() {
    let mut pset = PauliSet::new(3);
    assert_eq!(pset.to_text(), "\n");
    pset.insert("XYZ", true);
    pset.insert("IIZ", false);
    assert_eq!(pset.to_text(), "-XYZ\n+IIZ\n\n");
}
