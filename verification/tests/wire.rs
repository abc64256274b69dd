use ketgrid::wire::QubitWire;

#[test]
fn test_qubit_wire_new() {
    let wire = QubitWire::new(0, "Alice");
    assert_eq!(wire.id, 0);
    assert_eq!(wire.label, "Alice");
}

#[test]
fn test_qubit_wire_default_label() {
    let wire = QubitWire::with_default_label(5);
    assert_eq!(wire.id, 5);
    assert_eq!(wire.label, "|q5⟩");
}

#[test]
fn default_label_of_multi_digit_ids() {
    assert_eq!(QubitWire::with_default_label(0).label, "|q0⟩");
    assert_eq!(QubitWire::with_default_label(42).label, "|q42⟩");
    assert_eq!(QubitWire::with_default_label(1000).label, "|q1000⟩");
}

#[test]
fn decimal_rendering() {
    let mut s = String::from("n=");
    ketgrid::push_decimal(&mut s, 907);
    assert_eq!(s, "n=907");
    let mut z = String::new();
    ketgrid::push_decimal(&mut z, 0);
    assert_eq!(z, "0");
}
