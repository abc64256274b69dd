use ketgrid::circuit::Circuit;
use ketgrid::commands::{
    add_gate_recorded, add_measurement_recorded, add_qubit, copy_selected, delete_gate, delete_measurement,
    delete_selected, edit_gate_angle, paste, paste_at, paste_gate_at_column, redo_edit, remove_last_qubit,
    replace_circuit, undo_edit, context_menu_entries, MenuEntry,
};
use ketgrid::editor::{ClipboardContent, EditorState};
use ketgrid::gate::GateType;
use ketgrid::history::{EditHistory, EditOperation};

fn bell() -> Circuit {
    let mut c = Circuit::new(2);
    c.add_gate(GateType::H, vec![0], vec![], 0).unwrap();
    c.add_gate(GateType::Cnot, vec![1], vec![0], 1).unwrap();
    c.add_measurement(0, 2).unwrap();
    c
}

fn undo(c: &mut Circuit, h: &mut EditHistory, e: &mut EditorState) -> bool {
    assert!(h.undo_fits(c));
    undo_edit(c, h, e)
}

fn redo(c: &mut Circuit, h: &mut EditHistory, e: &mut EditorState) -> bool {
    assert!(h.redo_fits(c));
    redo_edit(c, h, e)
}

#[test]
fn command_add_gate_then_undo_redo() {
    let mut c = bell();
    let before = c.clone();
    let mut h = EditHistory::default();
    let mut e = EditorState::default();
    assert!(add_gate_recorded(&mut c, &mut h, GateType::X, vec![1], vec![], 4));
    assert_eq!(c.gates.len(), 3);
    assert_eq!(c.gates[2].column, 4);
    let after = c.clone();
    assert!(undo(&mut c, &mut h, &mut e));
    assert_eq!(c, before);
    assert!(redo(&mut c, &mut h, &mut e));
    assert_eq!(c, after);
}

#[test]
fn command_add_invalid_gate_records_nothing() {
    let mut c = bell();
    let before = c.clone();
    let mut h = EditHistory::default();
    assert!(!add_gate_recorded(&mut c, &mut h, GateType::X, vec![5], vec![], 4));
    assert!(!add_gate_recorded(&mut c, &mut h, GateType::Cnot, vec![1], vec![1], 4));
    assert_eq!(c, before);
    assert!(!h.can_undo());
}

#[test]
fn command_measurement_add_delete_undo() {
    let mut c = bell();
    let before = c.clone();
    let mut h = EditHistory::default();
    let mut e = EditorState::default();
    assert!(add_measurement_recorded(&mut c, &mut h, 1, 2));
    assert_eq!(c.measurements.len(), 2);
    assert!(!add_measurement_recorded(&mut c, &mut h, 7, 2));
    assert_eq!(h.undo_len(), 1);
    assert!(delete_measurement(&mut c, &mut h, 0));
    assert_eq!(c.measurements.len(), 1);
    assert_eq!(c.measurements[0].qubit_id, 1);
    assert!(!delete_measurement(&mut c, &mut h, 5));
    assert!(undo(&mut c, &mut h, &mut e));
    assert!(undo(&mut c, &mut h, &mut e));
    assert_eq!(c, before);
}

#[test]
fn command_delete_gate_clears_selection_and_undoes() {
    let mut c = bell();
    let before = c.clone();
    let mut h = EditHistory::default();
    let mut e = EditorState::default();
    e.toggle_gate_selection(0, false);
    assert!(delete_gate(&mut c, &mut h, &mut e, 0));
    assert_eq!(c.gates.len(), 1);
    assert_eq!(c.gates[0].gate, GateType::Cnot);
    assert!(!e.is_gate_selected(0));
    assert!(e.last_selected_gate.is_none());
    assert!(!delete_gate(&mut c, &mut h, &mut e, 3));
    assert!(undo(&mut c, &mut h, &mut e));
    assert_eq!(c, before);
}

#[test]
fn command_add_and_remove_last_qubit() {
    let mut c = bell();
    let before = c.clone();
    let mut h = EditHistory::default();
    let mut e = EditorState::default();
    add_qubit(&mut c, &mut h);
    assert_eq!(c.num_qubits(), 3);
    assert_eq!(c.qubits[2].label, "|q2⟩");
    assert!(remove_last_qubit(&mut c, &mut h, &mut e));
    assert_eq!(c.num_qubits(), 2);
    // The last wire is in use now: nothing is removed.
    assert!(!remove_last_qubit(&mut c, &mut h, &mut e));
    assert_eq!(h.undo_len(), 2);
    assert!(undo(&mut c, &mut h, &mut e));
    assert_eq!(c.num_qubits(), 3);
    assert!(undo(&mut c, &mut h, &mut e));
    assert_eq!(c, before);
}

#[test]
fn command_remove_last_qubit_on_empty_circuit() {
    let mut c = Circuit::new(0);
    let mut h = EditHistory::default();
    let mut e = EditorState::default();
    assert!(!remove_last_qubit(&mut c, &mut h, &mut e));
    assert!(!h.can_undo());
}

#[test]
fn command_edit_angle_and_undo() {
    let mut c = Circuit::new(1);
    c.add_gate(GateType::Ry(0.25f64.to_bits()), vec![0], vec![], 0).unwrap();
    c.add_gate(GateType::H, vec![0], vec![], 1).unwrap();
    let before = c.clone();
    let mut h = EditHistory::default();
    let mut e = EditorState::default();
    assert!(edit_gate_angle(&mut c, &mut h, 0, 1.75f64.to_bits()));
    assert_eq!(c.gates[0].gate, GateType::Ry(1.75f64.to_bits()));
    // A gate without an angle is left alone and nothing is recorded.
    assert!(!edit_gate_angle(&mut c, &mut h, 1, 1.0f64.to_bits()));
    assert_eq!(c.gates[1].gate, GateType::H);
    assert!(!edit_gate_angle(&mut c, &mut h, 2, 1.0f64.to_bits()));
    assert!(undo(&mut c, &mut h, &mut e));
    assert!(!h.can_undo());
    assert_eq!(c, before);
}

#[test]
fn command_copy_and_paste() {
    let mut c = bell();
    let mut h = EditHistory::default();
    let mut e = EditorState::default();
    assert!(!copy_selected(&c, &mut e));
    assert!(!paste(&mut c, &mut h, &e));
    e.toggle_gate_selection(1, false);
    assert!(copy_selected(&c, &mut e));
    match e.clipboard.as_ref().unwrap() {
        ClipboardContent::Single { gate, original_column, .. } => {
            assert_eq!(gate.gate, GateType::Cnot);
            assert_eq!(*original_column, 1);
        }
        ClipboardContent::Multiple(_) => panic!("expected a single gate"),
    }
    // Paste goes to the column of the last selected gate.
    assert!(paste(&mut c, &mut h, &e));
    assert_eq!(c.gates.len(), 3);
    assert_eq!(c.gates[2].gate, GateType::Cnot);
    assert_eq!(c.gates[2].column, 1);
    assert_eq!(c.gates[2].control_qubits, vec![0]);
    // With nothing selected, one column after the last gate.
    e.clear_selection();
    assert!(paste(&mut c, &mut h, &e));
    assert_eq!(c.gates[3].column, 2);
    // At a given gate's column.
    assert!(paste_at(&mut c, &mut h, &e, 0));
    assert_eq!(c.gates[4].column, 0);
    assert!(!paste_at(&mut c, &mut h, &e, 99));
    assert_eq!(h.undo_len(), 3);
}

#[test]
fn command_paste_needs_the_qubits() {
    let mut big = Circuit::new(3);
    big.add_gate(GateType::Toffoli, vec![2], vec![0, 1], 0).unwrap();
    let mut c = Circuit::new(2);
    let mut h = EditHistory::default();
    assert!(!paste_gate_at_column(&mut c, &mut h, &big.gates[0], 0));
    let mut wide = Circuit::new(3);
    assert!(paste_gate_at_column(&mut wide, &mut h, &big.gates[0], 7));
    assert_eq!(wide.gates[0].column, 7);
    assert_eq!(wide.gates[0].target_qubits, vec![2]);
}

#[test]
fn command_delete_selected_removes_from_the_top() {
    let mut c = Circuit::new(3);
    for q in 0..3 {
        c.add_gate(GateType::X, vec![q], vec![], q).unwrap();
    }
    c.add_gate(GateType::H, vec![0], vec![], 5).unwrap();
    let before = c.clone();
    let mut h = EditHistory::default();
    let mut e = EditorState::default();
    assert!(!delete_selected(&mut c, &mut h, &mut e));
    assert_eq!(c, before);

    e.toggle_gate_selection(1, false);
    e.toggle_gate_selection(3, true);
    e.toggle_gate_selection(9, true);
    assert!(delete_selected(&mut c, &mut h, &mut e));
    assert_eq!(c.gates.len(), 2);
    assert_eq!(c.gates[0].target_qubits, vec![0]);
    assert_eq!(c.gates[1].target_qubits, vec![2]);
    assert!(!e.is_gate_selected(1));
    assert_eq!(h.undo_len(), 2);

    assert!(undo(&mut c, &mut h, &mut e));
    assert_eq!(c.gates.len(), 3);
    assert!(undo(&mut c, &mut h, &mut e));
    assert_eq!(c, before);
}

#[test]
fn command_replace_circuit_and_undo() {
    let mut c = bell();
    let before = c.clone();
    let mut h = EditHistory::default();
    let mut e = EditorState::default();
    e.toggle_gate_selection(0, false);
    replace_circuit(&mut c, &mut h, &mut e, Circuit::new(3));
    assert_eq!(c, Circuit::new(3));
    assert!(!e.is_gate_selected(0));
    assert!(undo(&mut c, &mut h, &mut e));
    assert_eq!(c, before);
    assert!(redo(&mut c, &mut h, &mut e));
    assert_eq!(c, Circuit::new(3));
}

#[test]
fn command_undo_fits_checks_positions() {
    let mut c = bell();
    let mut h = EditHistory::default();
    let mut e = EditorState::default();
    assert!(h.undo_fits(&c));
    assert!(h.redo_fits(&c));
    h.push(EditOperation::AddGate { index: 5, gate: c.gates[0].clone() });
    assert!(!h.undo_fits(&c));
    h.clear();
    assert!(delete_gate(&mut c, &mut h, &mut e, 1));
    assert!(h.undo_fits(&c));
}

#[test]
fn command_sequence_undoes_and_redoes_step_by_step() {
    let mut c = bell();
    let mut h = EditHistory::default();
    let mut e = EditorState::default();
    let mut states = vec![c.clone()];
    add_qubit(&mut c, &mut h);
    states.push(c.clone());
    assert!(add_gate_recorded(&mut c, &mut h, GateType::Rz(3), vec![2], vec![], 3));
    states.push(c.clone());
    assert!(edit_gate_angle(&mut c, &mut h, 2, 7));
    states.push(c.clone());
    assert!(delete_gate(&mut c, &mut h, &mut e, 2));
    states.push(c.clone());
    assert!(remove_last_qubit(&mut c, &mut h, &mut e));
    states.push(c.clone());
    assert!(add_measurement_recorded(&mut c, &mut h, 1, 5));
    states.push(c.clone());
    replace_circuit(&mut c, &mut h, &mut e, Circuit::new(4));
    states.push(c.clone());
    assert!(delete_measurement(&mut c, &mut h, 0) == false);
    for k in (0..states.len() - 1).rev() {
        assert!(undo(&mut c, &mut h, &mut e));
        assert_eq!(c, states[k]);
    }
    assert!(!undo(&mut c, &mut h, &mut e));
    for k in 1..states.len() {
        assert!(redo(&mut c, &mut h, &mut e));
        assert_eq!(c, states[k]);
    }
    assert!(!redo(&mut c, &mut h, &mut e));
}

#[test]
fn context_menu_entries_follow_the_item() {
    let mut c = bell();
    assert!(add_gate_recorded(&mut c, &mut EditHistory::default(), GateType::Rx(0), vec![1], vec![], 3));
    let mut e = EditorState::default();
    assert!(context_menu_entries(&c, &e).is_empty());
    e.open_context_menu((0, 0), 0, false);
    assert_eq!(context_menu_entries(&c, &e), vec![MenuEntry::Copy, MenuEntry::Delete]);
    e.open_context_menu((0, 0), 2, false);
    assert_eq!(context_menu_entries(&c, &e), vec![MenuEntry::EditParameters, MenuEntry::Copy, MenuEntry::Delete]);
    let g = c.gates[0].clone();
    e.copy_gate(&g);
    assert_eq!(
        context_menu_entries(&c, &e),
        vec![MenuEntry::EditParameters, MenuEntry::Copy, MenuEntry::PasteHere, MenuEntry::Delete]
    );
    e.open_context_menu((0, 0), 7, false);
    assert!(context_menu_entries(&c, &e).is_empty());
    e.open_context_menu((0, 0), 0, true);
    assert_eq!(context_menu_entries(&c, &e), vec![MenuEntry::Delete]);
}
