use ketgrid::view::{GateHitResult, GateInteraction};
use ketgrid::circuit::Circuit;
use ketgrid::editor::{ClipboardContent, ContextMenuType, DropTarget, EditorState};
use ketgrid::gate::GateType;

#[test]
fn test_single_qubit_placement() {
    let mut state = EditorState::default();
    let target = DropTarget { qubit_idx: 0, column: 0 };
    let result = state.try_place(&GateType::H, target);
    assert!(result.is_some());
    let placement = result.unwrap();
    assert_eq!(placement.gate, GateType::H);
    assert_eq!(placement.target_qubits, vec![0]);
    assert!(placement.control_qubits.is_empty());
    assert_eq!(placement.column, 0);
}

#[test]
fn test_cnot_two_click_placement() {
    let mut state = EditorState::default();

    let target1 = DropTarget { qubit_idx: 0, column: 1 };
    let result1 = state.try_place(&GateType::Cnot, target1);
    assert!(result1.is_none());
    assert!(state.is_awaiting_more_qubits());

    let target2 = DropTarget { qubit_idx: 1, column: 1 };
    let result2 = state.try_place(&GateType::Cnot, target2);
    assert!(result2.is_some());
    let placement = result2.unwrap();
    assert_eq!(placement.gate, GateType::Cnot);
    assert_eq!(placement.control_qubits, vec![0]);
    assert_eq!(placement.target_qubits, vec![1]);
    assert_eq!(placement.column, 1);
    assert!(!state.is_awaiting_more_qubits());
}

#[test]
fn test_swap_two_click_placement() {
    let mut state = EditorState::default();

    let target1 = DropTarget { qubit_idx: 0, column: 2 };
    assert!(state.try_place(&GateType::Swap, target1).is_none());

    let target2 = DropTarget { qubit_idx: 1, column: 2 };
    let result = state.try_place(&GateType::Swap, target2);
    assert!(result.is_some());

    let placement = result.unwrap();
    assert_eq!(placement.target_qubits, vec![0, 1]);
    assert!(placement.control_qubits.is_empty());
}

#[test]
fn test_toffoli_three_click_placement() {
    let mut state = EditorState::default();

    let t1 = DropTarget { qubit_idx: 0, column: 0 };
    assert!(state.try_place(&GateType::Toffoli, t1).is_none());

    let t2 = DropTarget { qubit_idx: 1, column: 0 };
    assert!(state.try_place(&GateType::Toffoli, t2).is_none());

    let t3 = DropTarget { qubit_idx: 2, column: 0 };
    let result = state.try_place(&GateType::Toffoli, t3);
    assert!(result.is_some());

    let placement = result.unwrap();
    assert_eq!(placement.control_qubits, vec![0, 1]);
    assert_eq!(placement.target_qubits, vec![2]);
}

#[test]
fn test_same_qubit_rejected() {
    let mut state = EditorState::default();

    let target1 = DropTarget { qubit_idx: 0, column: 1 };
    state.try_place(&GateType::Cnot, target1);

    let target2 = DropTarget { qubit_idx: 0, column: 1 };
    let result = state.try_place(&GateType::Cnot, target2);
    assert!(result.is_none());
    assert!(state.is_awaiting_more_qubits());
}

#[test]
fn test_cancel_pending() {
    let mut state = EditorState::default();

    let target = DropTarget { qubit_idx: 0, column: 1 };
    state.try_place(&GateType::Cnot, target);
    assert!(state.is_awaiting_more_qubits());

    state.cancel_pending();
    assert!(!state.is_awaiting_more_qubits());
}

#[test]
fn test_gate_change_resets_pending() {
    let mut state = EditorState::default();

    let target = DropTarget { qubit_idx: 0, column: 1 };
    state.try_place(&GateType::Cnot, target);
    assert!(state.is_awaiting_more_qubits());

    let target2 = DropTarget { qubit_idx: 1, column: 2 };
    state.try_place(&GateType::Cz, target2);
    let pending = state.multi_qubit_pending.as_ref().unwrap();
    assert_eq!(pending.gate, GateType::Cz);
    assert_eq!(pending.selected_qubits, vec![1]);
}

#[test]
fn test_status_text() {
    let mut state = EditorState::default();

    assert_eq!(state.status_text(None, ""), "Ready");
    assert_eq!(state.status_text(Some(&GateType::H), ""), "Click wire to place H");

    let target = DropTarget { qubit_idx: 0, column: 0 };
    state.try_place(&GateType::Cnot, target);
    assert_eq!(state.status_text(Some(&GateType::Cnot), ""), "Select target qubit (2/2)");
}

#[test]
fn editor_status_text_controls_and_angles() {
    let mut state = EditorState::default();
    let rx = GateType::Rx(1.5f64.to_bits());
    assert_eq!(state.status_text(Some(&rx), &format!("{:.2}", 1.5f64)), "Click wire to place Rx(1.50)");

    state.try_place(&GateType::Toffoli, DropTarget { qubit_idx: 3, column: 4 });
    assert_eq!(state.status_text(None, ""), "Select control qubit (2/3)");
    state.try_place(&GateType::Toffoli, DropTarget { qubit_idx: 1, column: 4 });
    assert_eq!(state.status_text(None, ""), "Select target qubit (3/3)");
    let placed = state.try_place(&GateType::Toffoli, DropTarget { qubit_idx: 0, column: 9 }).unwrap();
    assert_eq!(placed.control_qubits, vec![3, 1]);
    assert_eq!(placed.target_qubits, vec![0]);
    // The column of the first click is kept.
    assert_eq!(placed.column, 4);
    assert_eq!(state.status_text(None, ""), "Ready");
}

#[test]
fn editor_selection_toggles() {
    let mut state = EditorState::default();
    assert!(state.toggle_gate_selection(2, false));
    assert!(state.is_gate_selected(2));
    assert_eq!(state.last_selected_gate.map(|g| g.index), Some(2));

    // Ctrl adds and removes.
    assert!(state.toggle_gate_selection(5, true));
    assert!(state.is_gate_selected(5));
    assert!(state.is_gate_selected(2));
    assert!(!state.toggle_gate_selection(2, true));
    assert!(!state.is_gate_selected(2));
    assert!(state.is_gate_selected(5));

    // A plain click selects only that gate.
    assert!(state.toggle_gate_selection(7, false));
    assert!(state.is_gate_selected(7));
    assert!(!state.is_gate_selected(5));

    state.clear_selection();
    assert!(!state.is_gate_selected(7));
    assert!(state.last_selected_gate.is_none());
}

#[test]
fn editor_context_menu_selects_gates_only() {
    let mut state = EditorState::default();
    state.open_context_menu((10, 20), 3, false);
    let menu = state.context_menu.as_ref().unwrap();
    assert_eq!(menu.position, (10, 20));
    assert_eq!(menu.item_index, 3);
    assert_eq!(menu.item_type, ContextMenuType::Gate);
    assert!(state.is_gate_selected(3));

    state.open_context_menu((1, 2), 0, true);
    assert_eq!(state.context_menu.as_ref().unwrap().item_type, ContextMenuType::Measurement);
    assert!(!state.is_gate_selected(0));
    assert!(state.is_gate_selected(3));

    state.start_editing_gate(3);
    assert_eq!(state.editing_gate, Some(3));
    assert!(state.context_menu.is_none());
    state.stop_editing_gate();
    assert!(state.editing_gate.is_none());

    state.open_context_menu((0, 0), 1, true);
    state.close_context_menu();
    assert!(state.context_menu.is_none());
}

#[test]
fn editor_copy_gate_to_clipboard() {
    let mut circuit = Circuit::new(3);
    circuit.add_gate(GateType::Cnot, vec![2], vec![0], 6).unwrap();
    let mut state = EditorState::default();
    assert!(!state.has_clipboard_content());
    state.copy_gate(&circuit.gates[0]);
    assert!(state.has_clipboard_content());
    match state.clipboard.as_ref().unwrap() {
        ClipboardContent::Single { gate, original_column, original_qubits } => {
            assert_eq!(gate.gate, GateType::Cnot);
            assert_eq!(*original_column, 6);
            assert_eq!(*original_qubits, vec![0, 2]);
        }
        ClipboardContent::Multiple(_) => panic!("expected a single gate"),
    }
}

#[test]
fn gate_clicks_select_and_open_menus() {
    let mut e = EditorState::default();
    e.gate_clicked(GateHitResult::Gate(2), GateInteraction::LeftClick, (0, 0));
    assert!(e.is_gate_selected(2));
    e.gate_clicked(GateHitResult::Gate(4), GateInteraction::CtrlClick, (0, 0));
    assert!(e.is_gate_selected(2) && e.is_gate_selected(4));
    e.gate_clicked(GateHitResult::Gate(4), GateInteraction::CtrlClick, (0, 0));
    assert!(!e.is_gate_selected(4));
    e.gate_clicked(GateHitResult::Gate(1), GateInteraction::RightClick, (3, 5));
    assert!(e.context_menu.is_some());
    assert!(e.is_gate_selected(1) && !e.is_gate_selected(2));
    e.gate_clicked(GateHitResult::Empty, GateInteraction::LeftClick, (0, 0));
    assert!(!e.is_gate_selected(1));
}
