use ketgrid::circuit::{Circuit, CircuitError, PlacedGate};
use ketgrid::gate::GateType;

#[test]
fn test_circuit_creation() {
    let circuit = Circuit::new(2);
    assert_eq!(circuit.num_qubits(), 2);
    assert_eq!(circuit.qubits.len(), 2);
    assert_eq!(circuit.gates.len(), 0);
    assert_eq!(circuit.measurements.len(), 0);
    assert_eq!(circuit.qubits[0].label, "|q0⟩");
    assert_eq!(circuit.qubits[1].label, "|q1⟩");
}

#[test]
fn test_circuit_with_custom_labels() {
    let circuit = Circuit::with_labels(vec!["Alice".to_string(), "Bob".to_string()]);
    assert_eq!(circuit.num_qubits(), 2);
    assert_eq!(circuit.qubits[0].label, "Alice");
    assert_eq!(circuit.qubits[1].label, "Bob");
}

#[test]
fn test_add_h_gate() {
    let mut circuit = Circuit::new(2);
    circuit.add_gate(GateType::H, vec![0], vec![], 0).unwrap();
    
    assert_eq!(circuit.gates.len(), 1);
    assert_eq!(circuit.gates[0].gate, GateType::H);
    assert_eq!(circuit.gates[0].target_qubits, vec![0]);
    assert_eq!(circuit.gates[0].column, 0);
}

#[test]
fn test_add_cnot_gate() {
    let mut circuit = Circuit::new(2);
    // CNOT with control on q0, target on q1
    circuit.add_gate(GateType::Cnot, vec![1], vec![0], 1).unwrap();
    
    assert_eq!(circuit.gates.len(), 1);
    assert_eq!(circuit.gates[0].gate, GateType::Cnot);
    assert_eq!(circuit.gates[0].control_qubits, vec![0]);
    assert_eq!(circuit.gates[0].target_qubits, vec![1]);
    assert_eq!(circuit.gates[0].column, 1);
}

#[test]
fn test_invalid_qubit_index() {
    let mut circuit = Circuit::new(2);
    let result = circuit.add_gate(GateType::H, vec![5], vec![], 0);
    
    assert!(result.is_err());
    assert_eq!(
        result.unwrap_err(),
        CircuitError::InvalidQubitIndex {
            index: 5,
            num_qubits: 2,
        }
    );
}

#[test]
fn test_invalid_control_index() {
    let mut circuit = Circuit::new(2);
    let result = circuit.add_gate(GateType::Cnot, vec![0], vec![5], 0);
    
    assert!(result.is_err());
    assert_eq!(
        result.unwrap_err(),
        CircuitError::InvalidControlIndex {
            index: 5,
            num_qubits: 2,
        }
    );
}

#[test]
fn test_overlapping_targets_and_controls() {
    let mut circuit = Circuit::new(2);
    let result = circuit.add_gate(GateType::Cnot, vec![0], vec![0], 0);
    
    assert!(result.is_err());
    assert_eq!(result.unwrap_err(), CircuitError::OverlappingTargetsAndControls);
}

#[test]
fn test_invalid_target_count() {
    let mut circuit = Circuit::new(2);
    // H gate expects 1 target
    let result = circuit.add_gate(GateType::H, vec![0, 1], vec![], 0);
    
    assert!(result.is_err());
    assert_eq!(
        result.unwrap_err(),
        CircuitError::InvalidTargetCount {
            expected: 1,
            actual: 2,
        }
    );
}

#[test]
fn test_invalid_control_count() {
    let mut circuit = Circuit::new(3);
    // CNOT expects 1 control
    let result = circuit.add_gate(GateType::Cnot, vec![2], vec![0, 1], 0);
    
    assert!(result.is_err());
    assert_eq!(
        result.unwrap_err(),
        CircuitError::InvalidControlCount {
            expected: 1,
            actual: 2,
        }
    );
}

#[test]
fn test_add_measurement() {
    let mut circuit = Circuit::new(2);
    circuit.add_measurement(0, 2).unwrap();
    
    assert_eq!(circuit.measurements.len(), 1);
    assert_eq!(circuit.measurements[0].qubit_id, 0);
    assert_eq!(circuit.measurements[0].column, 2);
}

#[test]
fn test_invalid_measurement_qubit() {
    let mut circuit = Circuit::new(2);
    let result = circuit.add_measurement(5, 0);
    
    assert!(result.is_err());
}

#[test]
fn test_gates_by_column() {
    let mut circuit = Circuit::new(2);
    circuit.add_gate(GateType::X, vec![0], vec![], 2).unwrap();
    circuit.add_gate(GateType::H, vec![0], vec![], 0).unwrap();
    circuit.add_gate(GateType::Z, vec![1], vec![], 1).unwrap();

    let sorted = circuit.gates_by_column();
    assert_eq!(sorted.len(), 3);
    assert_eq!(sorted[0].column, 0);
    assert_eq!(sorted[1].column, 1);
    assert_eq!(sorted[2].column, 2);
}

#[test]
fn test_max_column() {
    let mut circuit = Circuit::new(2);
    assert_eq!(circuit.max_column(), 0);

    circuit.add_gate(GateType::H, vec![0], vec![], 5).unwrap();
    assert_eq!(circuit.max_column(), 5);

    circuit.add_measurement(1, 3).unwrap();
    assert_eq!(circuit.max_column(), 5); // Still 5 from that gate

    circuit.add_measurement(0, 10).unwrap();
    assert_eq!(circuit.max_column(), 10);
}

#[test]
fn circuit_test_toffoli_gate() {
    let mut circuit = Circuit::new(3);
    // Toffoli: 2 controls, 1 target
    circuit.add_gate(GateType::Toffoli, vec![2], vec![0, 1], 0).unwrap();
    
    assert_eq!(circuit.gates.len(), 1);
    assert_eq!(circuit.gates[0].control_qubits, vec![0, 1]);
    assert_eq!(circuit.gates[0].target_qubits, vec![2]);
}

#[test]
fn test_parameterized_gate() {
    let mut circuit = Circuit::new(2);
    circuit.add_gate(GateType::Rx(std::f64::consts::PI.to_bits()), vec![0], vec![], 0).unwrap();
    circuit.add_gate(GateType::Ry(std::f64::consts::FRAC_PI_2.to_bits()), vec![1], vec![], 1).unwrap();
    
    assert_eq!(circuit.gates.len(), 2);
    assert!(circuit.gates[0].gate.is_parameterized());
    assert_eq!(circuit.gates[0].gate.parameters(), vec![std::f64::consts::PI.to_bits()]);
}

#[test]
fn circuit_test_swap_gate() {
    let mut circuit = Circuit::new(2);
    circuit.add_gate(GateType::Swap, vec![0, 1], vec![], 0).unwrap();
    
    assert_eq!(circuit.gates.len(), 1);
    assert_eq!(circuit.gates[0].gate, GateType::Swap);
    assert_eq!(circuit.gates[0].target_qubits, vec![0, 1]);
}

#[test]
fn circuit_test_barrier_and_identity() {
    let mut circuit = Circuit::new(2);
    circuit.add_gate(GateType::Barrier, vec![0], vec![], 0).unwrap();
    circuit.add_gate(GateType::Identity, vec![1], vec![], 1).unwrap();
    
    assert_eq!(circuit.gates.len(), 2);
    assert_eq!(circuit.gates[0].gate, GateType::Barrier);
    assert_eq!(circuit.gates[1].gate, GateType::Identity);
}

#[test]
fn test_placed_gate_all_qubits() {
    let gate = PlacedGate {
        gate: GateType::Cnot,
        target_qubits: vec![1],
        control_qubits: vec![0],
        column: 0,
        parameters: vec![],
    };
    
    let all = gate.all_qubits();
    assert_eq!(all, vec![0, 1]);
    assert!(gate.is_controlled());
}

#[test]
fn test_circuit_error_display() {
    let err = CircuitError::InvalidQubitIndex { index: 5, num_qubits: 2 };
    assert_eq!(err.message(""), "Qubit index 5 out of bounds (circuit has 2 qubits)");

    let err = CircuitError::OverlappingTargetsAndControls;
    assert_eq!(err.message(""), "Gate target and control qubits overlap");
}

#[test]
fn test_remove_qubit_no_gates() {
    let mut circuit = Circuit::new(3);
    // Add qubits: q0, q1, q2
    assert_eq!(circuit.num_qubits(), 3);

    // Remove q0
    circuit.remove_qubit(0).unwrap();
    assert_eq!(circuit.num_qubits(), 2);
    // Remaining qubits should have IDs 0, 1 (renumbered)
    assert_eq!(circuit.qubits[0].id, 0);
    assert_eq!(circuit.qubits[1].id, 1);
}

#[test]
fn test_remove_qubit_with_gate_fails() {
    let mut circuit = Circuit::new(3);
    circuit.add_gate(GateType::H, vec![0], vec![], 0).unwrap();

    // Should fail because qubit 0 has a gate targeting it
    let result = circuit.remove_qubit(0);
    assert!(result.is_err());
    assert!(matches!(result.unwrap_err(), CircuitError::QubitInUse { qubit_id: 0 }));
}

#[test]
fn test_remove_qubit_with_control_fails() {
    let mut circuit = Circuit::new(3);
    // CNOT with control on q1, target on q2
    circuit.add_gate(GateType::Cnot, vec![2], vec![1], 0).unwrap();

    // Should fail because qubit 1 is a control
    let result = circuit.remove_qubit(1);
    assert!(result.is_err());
    assert!(matches!(result.unwrap_err(), CircuitError::QubitInUse { qubit_id: 1 }));
}

#[test]
fn test_remove_qubit_updates_gate_indices() {
    let mut circuit = Circuit::new(3);
    // Add gates: H on q1, X on q2
    circuit.add_gate(GateType::H, vec![1], vec![], 0).unwrap();
    circuit.add_gate(GateType::X, vec![2], vec![], 1).unwrap();

    // Remove q0 (has no gates)
    circuit.remove_qubit(0).unwrap();

    // Gates should now target qubits 0 and 1 (shifted down)
    assert_eq!(circuit.gates.len(), 2);
    assert_eq!(circuit.gates[0].target_qubits, vec![0]); // was q1, now q0
    assert_eq!(circuit.gates[1].target_qubits, vec![1]); // was q2, now q1
}

#[test]
fn test_remove_qubit_updates_control_indices() {
    let mut circuit = Circuit::new(4);
    // CNOT with control on q2, target on q3
    circuit.add_gate(GateType::Cnot, vec![3], vec![2], 0).unwrap();

    // Remove q0 and q1 (have no gates)
    circuit.remove_qubit(0).unwrap();
    circuit.remove_qubit(0).unwrap(); // was q1, now at index 0

    // Remaining qubits: old q2 -> new q0, old q3 -> new q1
    // CNOT control should now be q0, target should be q1
    assert_eq!(circuit.gates[0].control_qubits, vec![0]);
    assert_eq!(circuit.gates[0].target_qubits, vec![1]);
}

#[test]
fn test_remove_qubit_invalid_index() {
    let mut circuit = Circuit::new(2);
    let result = circuit.remove_qubit(5);
    assert!(result.is_err());
    assert!(matches!(
        result.unwrap_err(),
        CircuitError::InvalidQubitIndex { index: 5, num_qubits: 2 }
    ));
}

#[test]
fn test_remove_qubit_with_measurement_fails() {
    let mut circuit = Circuit::new(3);
    circuit.add_measurement(0, 0).unwrap();

    let result = circuit.remove_qubit(0);
    assert!(result.is_err());
    assert!(matches!(result.unwrap_err(), CircuitError::QubitInUse { qubit_id: 0 }));
}

#[test]
fn test_remove_qubit_updates_measurement_indices() {
    let mut circuit = Circuit::new(3);
    // Measurement on q2
    circuit.add_measurement(2, 0).unwrap();

    // Remove q0 (has no gates or measurements)
    circuit.remove_qubit(0).unwrap();

    // Measurement should now target qubit 1 (shifted down)
    assert_eq!(circuit.measurements[0].qubit_id, 1);
}

#[test]
fn test_rename_qubit() {
    let mut circuit = Circuit::new(2);
    circuit.rename_qubit(0, "|ancilla⟩").unwrap();
    assert_eq!(circuit.qubits[0].label, "|ancilla⟩");
    assert_eq!(circuit.qubits[1].label, "|q1⟩");
}

#[test]
fn test_rename_qubit_invalid_index() {
    let mut circuit = Circuit::new(2);
    let result = circuit.rename_qubit(5, "foo");
    assert!(result.is_err());
}

#[test]
fn test_reorder_qubits() {
    let mut circuit = Circuit::new(3);
    // Add gates: H on q0, X on q1, Z on q2
    circuit.add_gate(GateType::H, vec![0], vec![], 0).unwrap();
    circuit.add_gate(GateType::X, vec![1], vec![], 0).unwrap();
    circuit.add_gate(GateType::Z, vec![2], vec![], 0).unwrap();

    // Reorder: [2, 0, 1] means:
    // old q2 -> new q0, old q0 -> new q1, old q1 -> new q2
    circuit.reorder_qubits(&[2, 0, 1]).unwrap();

    // Check qubit IDs
    assert_eq!(circuit.qubits[0].id, 0); // was q2
    assert_eq!(circuit.qubits[1].id, 1); // was q0
    assert_eq!(circuit.qubits[2].id, 2); // was q1

    // Check gate indices updated
    assert_eq!(circuit.gates[0].target_qubits, vec![1]); // H was on q0, now on q1
    assert_eq!(circuit.gates[1].target_qubits, vec![2]); // X was on q1, now on q2
    assert_eq!(circuit.gates[2].target_qubits, vec![0]); // Z was on q2, now on q0
}

#[test]
fn test_reorder_qubits_with_controls() {
    let mut circuit = Circuit::new(4);
    // CNOT with control on q0, target on q3
    circuit.add_gate(GateType::Cnot, vec![3], vec![0], 0).unwrap();

    // Reorder: [3, 2, 1, 0] (reverse)
    circuit.reorder_qubits(&[3, 2, 1, 0]).unwrap();

    // Now control should be q3, target should be q0
    assert_eq!(circuit.gates[0].control_qubits, vec![3]);
    assert_eq!(circuit.gates[0].target_qubits, vec![0]);
}

#[test]
fn test_reorder_qubits_invalid_length() {
    let mut circuit = Circuit::new(3);
    let result = circuit.reorder_qubits(&[0, 1]);
    assert!(result.is_err());
    assert!(matches!(result.unwrap_err(), CircuitError::InvalidPermutation { .. }));
}

#[test]
fn test_reorder_qubits_duplicate_index() {
    let mut circuit = Circuit::new(3);
    let result = circuit.reorder_qubits(&[0, 0, 1]);
    assert!(result.is_err());
    assert!(matches!(result.unwrap_err(), CircuitError::InvalidPermutation { .. }));
}

#[test]
fn test_reorder_qubits_out_of_bounds() {
    let mut circuit = Circuit::new(3);
    let result = circuit.reorder_qubits(&[0, 1, 5]);
    assert!(result.is_err());
    assert!(matches!(result.unwrap_err(), CircuitError::InvalidPermutation { .. }));
}

#[test]
fn test_reorder_qubits_updates_measurements() {
    let mut circuit = Circuit::new(3);
    circuit.add_measurement(0, 0).unwrap();
    circuit.add_measurement(2, 1).unwrap();

    // Reorder: [2, 0, 1]
    circuit.reorder_qubits(&[2, 0, 1]).unwrap();

    // Measurement on q0 -> now on q1
    // Measurement on q2 -> now on q0
    assert_eq!(circuit.measurements[0].qubit_id, 1);
    assert_eq!(circuit.measurements[1].qubit_id, 0);
}

#[test]
fn test_qubit_management_full_workflow() {
    // Test the full workflow from the task description
    let mut circuit = Circuit::new(0);

    // Add 3 qubits
    circuit.add_qubit();
    circuit.add_qubit();
    circuit.add_qubit();
    assert_eq!(circuit.num_qubits(), 3);

    // Rename q1 to '|ancilla⟩'
    circuit.rename_qubit(1, "|ancilla⟩").unwrap();
    assert_eq!(circuit.qubits[1].label, "|ancilla⟩");

    // Add gates on q1 and q2 so we can test index shifting
    circuit.add_gate(GateType::H, vec![1], vec![], 0).unwrap();
    circuit.add_gate(GateType::X, vec![2], vec![], 0).unwrap();

    // Remove q0 (no gates)
    circuit.remove_qubit(0).unwrap();
    assert_eq!(circuit.num_qubits(), 2);

    // Gates should have shifted: H was on q1 -> now on q0, X was on q2 -> now on q1
    assert_eq!(circuit.gates[0].target_qubits, vec![0]);
    assert_eq!(circuit.gates[1].target_qubits, vec![1]);

    // Reorder [1, 0] (swap the two remaining qubits)
    circuit.reorder_qubits(&[1, 0]).unwrap();

    // After swap: H should be on q1, X should be on q0
    assert_eq!(circuit.gates[0].target_qubits, vec![1]);
    assert_eq!(circuit.gates[1].target_qubits, vec![0]);
}

#[test]
fn update_gate_parameters_only_for_rotations() {
    let mut c = Circuit::new(1);
    c.add_gate(GateType::H, vec![0], vec![], 0).unwrap();
    c.add_gate(GateType::Rx(1), vec![0], vec![], 1).unwrap();
    let before = c.clone();
    assert_eq!(
        c.update_gate_parameters(0, GateType::X),
        Err(CircuitError::Message("Only parameterized gates (Rx, Ry, Rz) can be updated".to_string()))
    );
    assert!(c.update_gate_parameters(1, GateType::X).is_err());
    assert_eq!(c, before);
    assert!(c.update_gate_parameters(1, GateType::Rz(9)).is_ok());
    assert_eq!(c.gates[1].gate, GateType::Rz(9));
}

#[test]
fn reorder_then_inverse_restores() {
    let mut c = Circuit::new(3);
    c.add_gate(GateType::Cnot, vec![2], vec![0], 0).unwrap();
    c.add_gate(GateType::H, vec![1], vec![], 1).unwrap();
    c.add_measurement(2, 2).unwrap();
    let before = c.clone();
    c.reorder_qubits(&[2, 0, 1]).unwrap();
    assert_ne!(c, before);
    c.reorder_qubits(&[1, 2, 0]).unwrap();
    assert_eq!(c, before);
}
