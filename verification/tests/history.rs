use ketgrid::circuit::Circuit;
use ketgrid::gate::GateType;
use ketgrid::history::{EditHistory, EditOperation, MAX_HISTORY};
use ketgrid::wire::QubitWire;

#[test]
fn test_undo_redo_add_gate() {
    let mut circuit = Circuit::new(2);
    let mut history = EditHistory::default();

    circuit.add_gate(GateType::H, vec![0], vec![], 0).unwrap();
    let idx = circuit.gates.len() - 1;
    history.push(EditOperation::AddGate { index: idx, gate: circuit.gates[idx].clone() });

    assert_eq!(circuit.gates.len(), 1);
    assert!(history.can_undo());
    assert!(!history.can_redo());

    history.undo(&mut circuit);
    assert_eq!(circuit.gates.len(), 0);
    assert!(!history.can_undo());
    assert!(history.can_redo());

    history.redo(&mut circuit);
    assert_eq!(circuit.gates.len(), 1);
    assert_eq!(circuit.gates[0].gate, GateType::H);
}

#[test]
fn test_undo_remove_gate() {
    let mut circuit = Circuit::new(2);
    let mut history = EditHistory::default();

    circuit.add_gate(GateType::X, vec![0], vec![], 0).unwrap();
    let removed = circuit.remove_gate(0).unwrap();
    history.push(EditOperation::RemoveGate { index: 0, gate: removed });

    assert_eq!(circuit.gates.len(), 0);

    history.undo(&mut circuit);
    assert_eq!(circuit.gates.len(), 1);
    assert_eq!(circuit.gates[0].gate, GateType::X);

    history.redo(&mut circuit);
    assert_eq!(circuit.gates.len(), 0);
}

#[test]
fn test_undo_edit_param() {
    let mut circuit = Circuit::new(2);
    let mut history = EditHistory::default();

    circuit.add_gate(GateType::Rx(1.0f64.to_bits()), vec![0], vec![], 0).unwrap();

    let old_type = circuit.gates[0].gate.clone();
    let new_type = GateType::Rx(2.0f64.to_bits());
    circuit.update_gate_parameters(0, new_type.clone()).unwrap();
    history.push(EditOperation::EditParam { gate_index: 0, old_gate_type: old_type.clone(), new_gate_type: new_type });

    assert_eq!(circuit.gates[0].gate, GateType::Rx(2.0f64.to_bits()));

    history.undo(&mut circuit);
    assert_eq!(circuit.gates[0].gate, GateType::Rx(1.0f64.to_bits()));

    history.redo(&mut circuit);
    assert_eq!(circuit.gates[0].gate, GateType::Rx(2.0f64.to_bits()));
}

#[test]
fn test_undo_add_measurement() {
    let mut circuit = Circuit::new(2);
    let mut history = EditHistory::default();

    circuit.add_measurement(0, 1).unwrap();
    let idx = circuit.measurements.len() - 1;
    history.push(EditOperation::AddMeasurement { index: idx, measurement: circuit.measurements[idx].clone() });

    assert_eq!(circuit.measurements.len(), 1);

    history.undo(&mut circuit);
    assert_eq!(circuit.measurements.len(), 0);

    history.redo(&mut circuit);
    assert_eq!(circuit.measurements.len(), 1);
    assert_eq!(circuit.measurements[0].qubit_id, 0);
}

#[test]
fn test_undo_remove_measurement() {
    let mut circuit = Circuit::new(2);
    let mut history = EditHistory::default();

    circuit.add_measurement(1, 2).unwrap();
    let removed = circuit.remove_measurement(0).unwrap();
    history.push(EditOperation::RemoveMeasurement { index: 0, measurement: removed });

    assert_eq!(circuit.measurements.len(), 0);

    history.undo(&mut circuit);
    assert_eq!(circuit.measurements.len(), 1);
    assert_eq!(circuit.measurements[0].qubit_id, 1);

    history.redo(&mut circuit);
    assert_eq!(circuit.measurements.len(), 0);
}

#[test]
fn test_undo_add_qubit() {
    let mut circuit = Circuit::new(2);
    let mut history = EditHistory::default();

    circuit.add_qubit();
    history.push(EditOperation::AddQubit);

    assert_eq!(circuit.num_qubits(), 3);

    history.undo(&mut circuit);
    assert_eq!(circuit.num_qubits(), 2);

    history.redo(&mut circuit);
    assert_eq!(circuit.num_qubits(), 3);
}

#[test]
fn test_undo_replace_circuit() {
    let mut circuit = Circuit::new(2);
    circuit.add_gate(GateType::H, vec![0], vec![], 0).unwrap();
    let mut history = EditHistory::default();

    let old = std::mem::replace(&mut circuit, Circuit::new(3));
    history.push(EditOperation::ReplaceCircuit { old_circuit: old });

    assert_eq!(circuit.num_qubits(), 3);
    assert_eq!(circuit.gates.len(), 0);

    history.undo(&mut circuit);
    assert_eq!(circuit.num_qubits(), 2);
    assert_eq!(circuit.gates.len(), 1);

    history.redo(&mut circuit);
    assert_eq!(circuit.num_qubits(), 3);
    assert_eq!(circuit.gates.len(), 0);
}

#[test]
fn test_bell_state_undo_redo() {
    let mut circuit = Circuit::new(2);
    let mut history = EditHistory::default();

    circuit.add_gate(GateType::H, vec![0], vec![], 0).unwrap();
    history.push(EditOperation::AddGate { index: 0, gate: circuit.gates[0].clone() });

    circuit.add_gate(GateType::Cnot, vec![1], vec![0], 1).unwrap();
    history.push(EditOperation::AddGate { index: 1, gate: circuit.gates[1].clone() });

    assert_eq!(circuit.gates.len(), 2);

    assert!(history.undo(&mut circuit));
    assert_eq!(circuit.gates.len(), 1);
    assert_eq!(circuit.gates[0].gate, GateType::H);

    assert!(history.undo(&mut circuit));
    assert_eq!(circuit.gates.len(), 0);

    assert!(history.redo(&mut circuit));
    assert_eq!(circuit.gates.len(), 1);
    assert_eq!(circuit.gates[0].gate, GateType::H);

    assert!(history.redo(&mut circuit));
    assert_eq!(circuit.gates.len(), 2);
    assert_eq!(circuit.gates[1].gate, GateType::Cnot);
}

#[test]
fn test_new_operation_clears_redo() {
    let mut circuit = Circuit::new(2);
    let mut history = EditHistory::default();

    circuit.add_gate(GateType::H, vec![0], vec![], 0).unwrap();
    history.push(EditOperation::AddGate { index: 0, gate: circuit.gates[0].clone() });

    history.undo(&mut circuit);
    assert!(history.can_redo());

    circuit.add_gate(GateType::X, vec![0], vec![], 0).unwrap();
    history.push(EditOperation::AddGate { index: 0, gate: circuit.gates[0].clone() });
    assert!(!history.can_redo());
}

#[test]
fn test_stack_limit() {
    let mut circuit = Circuit::new(2);
    let mut history = EditHistory::default();

    for i in 0..150 {
        circuit.add_gate(GateType::H, vec![0], vec![], i).unwrap();
        let idx = circuit.gates.len() - 1;
        history.push(EditOperation::AddGate { index: idx, gate: circuit.gates[idx].clone() });
    }

    assert_eq!(history.undo_len(), MAX_HISTORY);
}

#[test]
fn test_undo_on_empty_returns_false() {
    let mut circuit = Circuit::new(2);
    let mut history = EditHistory::default();
    assert!(!history.undo(&mut circuit));
    assert!(!history.redo(&mut circuit));
}

#[test]
fn test_clear() {
    let mut circuit = Circuit::new(2);
    let mut history = EditHistory::default();

    circuit.add_gate(GateType::H, vec![0], vec![], 0).unwrap();
    history.push(EditOperation::AddGate { index: 0, gate: circuit.gates[0].clone() });

    history.clear();
    assert!(!history.can_undo());
    assert!(!history.can_redo());
}

#[test]
fn history_stack_limit_drops_oldest() {
    let mut circuit = Circuit::new(1);
    let mut history = EditHistory::default();
    for i in 0..(MAX_HISTORY + 5) {
        circuit.add_measurement(0, i).unwrap();
        history.push(EditOperation::AddMeasurement { index: i, measurement: circuit.measurements[i].clone() });
    }
    assert_eq!(history.undo_len(), MAX_HISTORY);
    // Undo everything that was kept: the five oldest measurements stay.
    let mut undone = 0;
    while history.undo(&mut circuit) {
        undone += 1;
    }
    assert_eq!(undone, MAX_HISTORY);
    assert_eq!(circuit.measurements.len(), 5);
    assert_eq!(circuit.measurements[4].column, 4);
}

#[test]
fn history_undo_then_redo_restores_circuit() {
    let mut circuit = Circuit::new(3);
    let mut history = EditHistory::default();
    circuit.add_gate(GateType::H, vec![0], vec![], 0).unwrap();
    history.push(EditOperation::AddGate { index: 0, gate: circuit.gates[0].clone() });
    circuit.add_gate(GateType::Toffoli, vec![2], vec![0, 1], 1).unwrap();
    history.push(EditOperation::AddGate { index: 1, gate: circuit.gates[1].clone() });
    circuit.add_measurement(2, 2).unwrap();
    history.push(EditOperation::AddMeasurement { index: 0, measurement: circuit.measurements[0].clone() });

    let snapshot = circuit.clone();
    assert!(history.undo(&mut circuit));
    assert!(history.undo(&mut circuit));
    assert_eq!(circuit.gates.len(), 1);
    assert!(circuit.measurements.is_empty());
    assert!(history.redo(&mut circuit));
    assert!(history.redo(&mut circuit));
    assert_eq!(circuit, snapshot);
    assert!(!history.can_redo());
}

#[test]
fn history_remove_qubit_undo_restores_wire_and_indices() {
    let mut circuit = Circuit::with_labels(vec!["a".to_string(), "b".to_string(), "c".to_string()]);
    circuit.add_gate(GateType::X, vec![2], vec![], 0).unwrap();
    circuit.add_measurement(0, 1).unwrap();
    let before = circuit.clone();
    let mut history = EditHistory::default();

    let wire = circuit.qubits[1].clone();
    circuit.remove_qubit(1).unwrap();
    history.push(EditOperation::RemoveQubit { qubit_id: 1, wire });
    assert_eq!(circuit.num_qubits(), 2);
    assert_eq!(circuit.gates[0].target_qubits, vec![1]);

    assert!(history.undo(&mut circuit));
    assert_eq!(circuit, before);
    assert_eq!(circuit.qubits[1].label, "b");

    assert!(history.redo(&mut circuit));
    assert_eq!(circuit.num_qubits(), 2);
    assert_eq!(circuit.qubits[1].label, "c");
    assert_eq!(circuit.qubits[1].id, 1);
    assert_eq!(circuit.gates[0].target_qubits, vec![1]);
}

#[test]
fn history_remove_qubit_wire_value() {
    let w = QubitWire::new(1, "b");
    assert_eq!(w.id, 1);
    assert_eq!(w.label, "b");
}
