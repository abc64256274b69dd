use ketgrid::circuit::Circuit;
use ketgrid::gate::GateType;
use ketgrid::view::{
    compute_step_columns, entanglement_wire_colors, gate_display_label, qubit_extent, step_cursor_col, GatePalette,
    PaletteSelection,
};

#[test]
fn view_gate_box_labels() {
    assert_eq!(gate_display_label(&GateType::Cnot, ""), "+");
    assert_eq!(gate_display_label(&GateType::Toffoli, ""), "+");
    assert_eq!(gate_display_label(&GateType::Swap, ""), "Swap");
    assert_eq!(gate_display_label(&GateType::H, ""), "H");
    let rz = GateType::Rz(0.5f64.to_bits());
    assert_eq!(gate_display_label(&rz, &format!("{:.1}", 0.5f64)), "Rz(0.5)");
    assert_eq!(gate_display_label(&GateType::Custom("U".to_string()), ""), "U");
}

#[test]
fn view_qubit_extent() {
    assert_eq!(qubit_extent(&[]), (0, 0));
    assert_eq!(qubit_extent(&[4]), (4, 4));
    assert_eq!(qubit_extent(&[3, 0, 7, 2]), (0, 7));
}

#[test]
fn view_step_columns_sorted_and_distinct() {
    let mut c = Circuit::new(2);
    c.add_gate(GateType::X, vec![1], vec![], 4).unwrap();
    c.add_gate(GateType::H, vec![0], vec![], 1).unwrap();
    c.add_gate(GateType::H, vec![1], vec![], 1).unwrap();
    c.add_gate(GateType::Z, vec![0], vec![], 2).unwrap();
    c.add_measurement(0, 9).unwrap();
    assert_eq!(compute_step_columns(&c), vec![1, 2, 4]);
    assert!(compute_step_columns(&Circuit::new(2)).is_empty());
}

#[test]
fn view_step_cursor() {
    let mut c = Circuit::new(2);
    c.add_gate(GateType::H, vec![0], vec![], 0).unwrap();
    c.add_gate(GateType::X, vec![1], vec![], 3).unwrap();
    c.add_measurement(0, 5).unwrap();
    let cols = compute_step_columns(&c);
    assert_eq!(step_cursor_col(false, 1, &cols, &c), None);
    assert_eq!(step_cursor_col(true, 0, &cols, &c), Some(0));
    assert_eq!(step_cursor_col(true, 1, &cols, &c), Some(3));
    assert_eq!(step_cursor_col(true, 2, &cols, &c), Some(6));
}

#[test]
fn view_wire_colors_skip_single_qubit_clusters() {
    let clusters = vec![vec![0, 2], vec![1], vec![3, 4]];
    assert_eq!(entanglement_wire_colors(5, &clusters, 8), vec![Some(0), None, Some(0), Some(1), Some(1)]);
    // Colors cycle through the palette.
    let clusters = vec![vec![0, 1], vec![2, 3], vec![4, 5]];
    assert_eq!(entanglement_wire_colors(6, &clusters, 2), vec![Some(0), Some(0), Some(1), Some(1), Some(0), Some(0)]);
}

#[test]
fn view_palette_press_toggles() {
    let mut p = GatePalette::new();
    assert!(p.selected().is_none());
    p.press(PaletteSelection::Gate(GateType::H));
    assert_eq!(p.selected_gate(), Some(&GateType::H));
    assert!(!p.is_measurement_selected());
    p.press(PaletteSelection::Gate(GateType::H));
    assert!(p.selected().is_none());
    p.press(PaletteSelection::Measurement);
    assert!(p.is_measurement_selected());
    assert_eq!(p.selected_gate(), None);
    p.press(PaletteSelection::Gate(GateType::X));
    assert_eq!(p.selected(), Some(&PaletteSelection::Gate(GateType::X)));
    p.select(PaletteSelection::Gate(GateType::X));
    assert_eq!(p.selected_gate(), Some(&GateType::X));
    p.clear_selection();
    assert!(p.selected().is_none());
}
