use ketgrid::gate::GateType;

fn bits(x: f64) -> u64 {
    x.to_bits()
}

#[test]
fn gate_test_parameterized_gates() {
    let rx = GateType::Rx(bits(std::f64::consts::PI));
    assert!(rx.is_parameterized());
    assert_eq!(rx.parameters(), vec![bits(std::f64::consts::PI)]);
    let angle = format!("{:.2}", std::f64::consts::PI);
    assert_eq!(rx.display_name(&angle), "Rx(3.14)");

    let ry = GateType::Ry(bits(std::f64::consts::FRAC_PI_2));
    assert!(ry.is_parameterized());
    assert_eq!(ry.parameters(), vec![bits(std::f64::consts::FRAC_PI_2)]);

    let rz = GateType::Rz(bits(0.5));
    assert!(rz.is_parameterized());
    assert_eq!(rz.parameters(), vec![bits(0.5)]);
}

#[test]
fn test_custom_gate() {
    let custom = GateType::Custom("MyGate".to_string());
    assert_eq!(custom.display_name(""), "MyGate");
    assert_eq!(custom.num_qubits(), 1);
    assert!(!custom.is_controlled());
}

#[test]
fn gate_test_controlled_gates() {
    assert!(GateType::Cnot.is_controlled());
    assert_eq!(GateType::Cnot.num_controls(), 1);
    assert_eq!(GateType::Cnot.num_qubits(), 2);

    assert!(GateType::Cz.is_controlled());
    assert_eq!(GateType::Cz.num_controls(), 1);

    assert!(GateType::Toffoli.is_controlled());
    assert_eq!(GateType::Toffoli.num_controls(), 2);
    assert_eq!(GateType::Toffoli.num_qubits(), 3);

    assert!(!GateType::H.is_controlled());
    assert!(!GateType::X.is_controlled());
    assert!(!GateType::Swap.is_controlled());
}

#[test]
fn gate_test_single_qubit_gates() {
    assert_eq!(GateType::H.num_qubits(), 1);
    assert_eq!(GateType::X.num_qubits(), 1);
    assert_eq!(GateType::Y.num_qubits(), 1);
    assert_eq!(GateType::Z.num_qubits(), 1);
    assert_eq!(GateType::S.num_qubits(), 1);
    assert_eq!(GateType::T.num_qubits(), 1);
}

#[test]
fn display_names_of_fixed_gates() {
    assert_eq!(GateType::Cnot.display_name(""), "C+");
    assert_eq!(GateType::Cz.display_name(""), "CZ");
    assert_eq!(GateType::Swap.display_name(""), "Swap");
    assert_eq!(GateType::Toffoli.display_name(""), "Toffoli");
    assert_eq!(GateType::Barrier.display_name(""), "|");
    assert_eq!(GateType::Identity.display_name(""), "I");
    assert_eq!(GateType::Rz(bits(1.0)).display_name("1.00"), "Rz(1.00)");
}

#[test]
fn same_as_compares_kind_angle_and_name() {
    assert!(GateType::Rx(bits(1.0)).same_as(&GateType::Rx(bits(1.0))));
    assert!(!GateType::Rx(bits(1.0)).same_as(&GateType::Ry(bits(1.0))));
    assert!(!GateType::Rx(bits(1.0)).same_as(&GateType::Rx(bits(2.0))));
    assert!(GateType::Custom("U".to_string()).same_as(&GateType::Custom("U".to_string())));
    assert!(!GateType::Custom("U".to_string()).same_as(&GateType::Custom("V".to_string())));
    assert_eq!(GateType::Custom("U".to_string()).duplicate(), GateType::Custom("U".to_string()));
}
