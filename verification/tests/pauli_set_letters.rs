use rustiq::pauli_set::PauliSet;

#[test]
fn construction() {
    let pset = PauliSet::new(10);
    assert_eq!(pset.data_array.len(), 20);
    assert_eq!(pset.n, 10);
    assert_eq!(pset.nstrides, 0);
    assert_eq!(pset.noperators, 0);
}

#[test]
fn insertion() {
    let mut pset = PauliSet::new(4);
    pset.insert(&"XYZI", false);
    assert_eq!(pset.data_array.len(), 8);
    assert_eq!(pset.n, 4);
    assert_eq!(pset.nstrides, 1);
    assert_eq!(pset.noperators, 1);
    assert_eq!(pset.data_array[0][0], 1);
    assert_eq!(pset.data_array[1][0], 1);
    assert_eq!(pset.data_array[2][0], 0);
    assert_eq!(pset.data_array[3][0], 0);

    assert_eq!(pset.data_array[4][0], 0);
    assert_eq!(pset.data_array[5][0], 1);
    assert_eq!(pset.data_array[6][0], 1);
    assert_eq!(pset.data_array[7][0], 0);
}

#[test]
fn get() {
    let mut pset = PauliSet::new(4);
    pset.insert(&"XYZI", false);
    assert_eq!(pset.get(0).1, "XYZI");
}

#[test]
fn h_test() {
    let mut pset = PauliSet::new(1);
    pset.insert(&"X", false);
    pset.insert(&"Z", false);
    pset.insert(&"Y", false);
    pset.insert(&"I", false);

    pset.h(0);

    assert_eq!(pset.get(0).1, "Z");
    assert_eq!(pset.get(1).1, "X");
    assert_eq!(pset.get(2).1, "Y");
    assert_eq!(pset.get(3).1, "I");
}

#[test]
fn s_test() {
    let mut pset = PauliSet::new(1);
    pset.insert(&"X", false);
    pset.insert(&"Z", false);
    pset.insert(&"Y", false);
    pset.insert(&"I", false);

    pset.s(0);

    assert_eq!(pset.get(0).1, "Y");
    assert_eq!(pset.get(1).1, "Z");
    assert_eq!(pset.get(2).1, "X");
    assert_eq!(pset.get(3).1, "I");
}

#[test]
fn cnot_test() {
    let mut pset = PauliSet::new(2);
    pset.insert(&"XX", false);
    pset.insert(&"ZZ", false);

    pset.cnot(0, 1);

    assert_eq!(pset.get(0).1, "XI");
    assert_eq!(pset.get(1).1, "IZ");
}

#[test]
fn support_size_test() {
    let mut pset = PauliSet::new(4);
    pset.insert(&"XYIZ", false);
    pset.insert(&"XYII", false);
    pset.insert(&"IYIZ", false);
    pset.insert(&"IIII", false);
    assert_eq!(pset.support_size(0), 3);
    assert_eq!(pset.support_size(1), 2);
    assert_eq!(pset.support_size(2), 2);
    assert_eq!(pset.support_size(3), 0);
}

#[test]
fn count_id() {
    let mut pset = PauliSet::new(4);
    pset.insert(&"IIII", false);
    pset.insert(&"XIII", false);
    pset.insert(&"XXII", false);
    pset.insert(&"XXXI", false);
    pset.insert(&"XXXX", false);
    assert_eq!(pset.count_id(0), 1);
    assert_eq!(pset.count_id(1), 2);
    assert_eq!(pset.count_id(2), 3);
    assert_eq!(pset.count_id(3), 4);
}

#[test]
fn sort_test() {
    let mut pset = PauliSet::new(4);
    pset.insert(&"IIII", false);
    pset.insert(&"XXII", false);
    pset.insert(&"XXXX", false);
    pset.insert(&"XIII", false);
    pset.insert(&"XXXI", false);
    pset.support_size_sort();
    assert_eq!(pset.get(0).1, "IIII");
    assert_eq!(pset.get(1).1, "XIII");
    assert_eq!(pset.get(2).1, "XXII");
    assert_eq!(pset.get(3).1, "XXXI");
    assert_eq!(pset.get(4).1, "XXXX");
}

#[test]
fn pop_test() {
    let mut pset = PauliSet::new(1);
    pset.insert(&"I", false);
    pset.insert(&"X", false);
    assert_eq!(pset.noperators, 2);
    pset.pop();
    assert_eq!(pset.noperators, 1);
    assert_eq!(pset.start_offset, 1);
    assert_eq!(pset.get(0).1, "X");
}
