use rustiq::pauli_set::PauliSet;

#[test]
fn pauli_set_construction() {
    let pset = PauliSet::new(10);
    assert_eq!(pset.data_array.len(), 20);
    assert_eq!(pset.n, 10);
    assert_eq!(pset.nstrides, 0);
    assert_eq!(pset.noperators, 0);
}

#[test]
fn pauli_set_insertion() {
    let mut pset = PauliSet::new(4);
    pset.insert(&"XYZI", false);
    assert_eq!(pset.data_array.len(), 8);
    assert_eq!(pset.n, 4);
    assert_eq!(pset.nstrides, 1);
    assert_eq!(pset.noperators, 1);
    assert_eq!(pset.data_array[0][0], 1);
    assert_eq!(pset.data_array[1][0], 1);
    assert_eq!(pset.data_array[2][0], 0);
    assert_eq!(pset.data_array[3][0], 0);

    assert_eq!(pset.data_array[4][0], 0);
    assert_eq!(pset.data_array[5][0], 1);
    assert_eq!(pset.data_array[6][0], 1);
    assert_eq!(pset.data_array[7][0], 0);
}

#[test]
fn pauli_set_get() {
    let mut pset = PauliSet::new(4);
    pset.insert(&"XYZI", false);
    assert_eq!(pset.get(0), (false, "XYZI".to_owned()));
}

#[test]
fn pauli_set_h_test() {
    let mut pset = PauliSet::new(1);
    pset.insert(&"X", false);
    pset.insert(&"Z", false);
    pset.insert(&"Y", false);
    pset.insert(&"I", false);

    pset.h(0);

    assert_eq!(pset.get(0), (false, "Z".to_owned()));
    assert_eq!(pset.get(1), (false, "X".to_owned()));
    assert_eq!(pset.get(2), (true, "Y".to_owned()));
    assert_eq!(pset.get(3), (false, "I".to_owned()));
}

#[test]
fn pauli_set_s_test() {
    let mut pset = PauliSet::new(1);
    pset.insert(&"X", false);
    pset.insert(&"Z", false);
    pset.insert(&"Y", false);
    pset.insert(&"I", false);

    pset.s(0);

    assert_eq!(pset.get(0), (false, "Y".to_owned()));
    assert_eq!(pset.get(1), (false, "Z".to_owned()));
    assert_eq!(pset.get(2), (true, "X".to_owned()));
    assert_eq!(pset.get(3), (false, "I".to_owned()));
}

#[test]
fn sqrt_x_test() {
    let mut pset = PauliSet::new(1);
    pset.insert(&"X", false);
    pset.insert(&"Z", false);
    pset.insert(&"Y", false);
    pset.insert(&"I", false);

    pset.sqrt_x(0);

    assert_eq!(pset.get(0), (false, "X".to_owned()));
    assert_eq!(pset.get(1), (true, "Y".to_owned()));
    assert_eq!(pset.get(2), (false, "Z".to_owned()));
    assert_eq!(pset.get(3), (false, "I".to_owned()));
}

#[test]
fn pauli_set_cnot_test() {
    const INPUTS: [&str; 16] = [
        "II", "IX", "IY", "IZ", "XI", "XX", "XY", "XZ", "YI", "YX", "YY", "YZ", "ZI", "ZX", "ZY",
        "ZZ",
    ];
    const OUTPUTS: [(bool, &str); 16] = [
        (false, "II"),
        (false, "IX"),
        (false, "ZY"),
        (false, "ZZ"),
        (false, "XX"),
        (false, "XI"),
        (false, "YZ"),
        (true, "YY"),
        (false, "YX"),
        (false, "YI"),
        (true, "XZ"),
        (false, "XY"),
        (false, "ZI"),
        (false, "ZX"),
        (false, "IY"),
        (false, "IZ"),
    ];
    for (ins, (phase, outs)) in INPUTS.iter().zip(OUTPUTS.iter()) {
        let mut pset = PauliSet::new(2);
        pset.insert(ins, false);
        pset.cnot(0, 1);
        assert_eq!(pset.get(0), (*phase, (*outs).to_owned()));
    }
}

#[test]
fn pauli_set_support_size_test() {
    let mut pset = PauliSet::new(4);
    pset.insert(&"XYIZ", false);
    pset.insert(&"XYII", false);
    pset.insert(&"IYIZ", false);
    pset.insert(&"IIII", false);
    assert_eq!(pset.support_size(0), 3);
    assert_eq!(pset.support_size(1), 2);
    assert_eq!(pset.support_size(2), 2);
    assert_eq!(pset.support_size(3), 0);
}

#[test]
fn pauli_set_count_id() {
    let mut pset = PauliSet::new(4);
    pset.insert(&"IIII", false);
    pset.insert(&"XIII", false);
    pset.insert(&"XXII", false);
    pset.insert(&"XXXI", false);
    pset.insert(&"XXXX", false);
    assert_eq!(pset.count_id(0), 1);
    assert_eq!(pset.count_id(1), 2);
    assert_eq!(pset.count_id(2), 3);
    assert_eq!(pset.count_id(3), 4);
}

#[test]
fn pauli_set_sort_test() {
    let mut pset = PauliSet::new(4);
    pset.insert(&"IIII", false);
    pset.insert(&"XXII", false);
    pset.insert(&"XXXX", false);
    pset.insert(&"XIII", false);
    pset.insert(&"XXXI", false);
    pset.support_size_sort();
    assert_eq!(pset.get(0), (false, "IIII".to_owned()));
    assert_eq!(pset.get(1), (false, "XIII".to_owned()));
    assert_eq!(pset.get(2), (false, "XXII".to_owned()));
    assert_eq!(pset.get(3), (false, "XXXI".to_owned()));
    assert_eq!(pset.get(4), (false, "XXXX".to_owned()));
}

#[test]
fn pauli_set_pop_test() {
    let mut pset = PauliSet::new(1);
    pset.insert(&"I", false);
    pset.insert(&"X", false);
    assert_eq!(pset.noperators, 2);
    pset.pop();
    assert_eq!(pset.noperators, 1);
    assert_eq!(pset.start_offset, 1);
    assert_eq!(pset.get(0), (false, "X".to_owned()));
}

#[test]
fn commute_test() {
    let mut pset = PauliSet::new(2);
    pset.insert(&"ZI", false);
    pset.insert(&"XI", false);
    pset.insert(&"ZZ", false);
    pset.insert(&"XX", false);
    pset.insert(&"YY", false);
    assert!(pset.commute(0, 2));
    assert!(!pset.commute(0, 1));
    assert!(pset.commute(2, 3));
    assert!(pset.commute(2, 4));
    assert!(pset.commute(3, 4));
    assert!(pset.commute(1, 3));
}
