//! Editing commands of the circuit editor. Each one changes the circuit
//! and records what it did in the edit history, so that it can be undone;
//! a history that fits the circuit still fits it afterwards.
use vstd::prelude::*;
use crate::circuit::{Circuit, CircuitView, Measurement, PlacedGate, PlacedGateView, validate_result, qubit_in_use, indices_below,
    circuit_valid, lemma_valid_indices};
use crate::editor::{ClipboardContent, ContextMenuType, EditorState, selection};
use crate::gate::{GateType, spec_is_parameterized, spec_parameters, spec_num_controls, spec_num_qubits};
use crate::history::{EditHistory, EditOperation, apply_effect, can_apply, can_revert, pushed, recorded_on, revert_effect,
    swapped, wires_numbered, lemma_undo_after_apply, lemma_record_keeps_fit, lemma_replace_keeps_fit};

verus! {

/// The editor after a command that drops the selection: nothing selected,
/// everything else as before.
pub open spec fn selection_dropped(before: EditorState, after: EditorState) -> bool {
    &&& selection(after.selected_gates@) == Set::<usize>::empty()
    &&& after.last_selected_gate is None
    &&& after.multi_qubit_pending == before.multi_qubit_pending
    &&& after.clipboard == before.clipboard
    &&& after.context_menu == before.context_menu
    &&& after.editing_gate == before.editing_gate
}

/// The history after recording `op`: it is on top of the undo stack and
/// nothing is left to redo.
pub open spec fn records(before: EditHistory, after: EditHistory, op: EditOperation) -> bool {
    &&& after.undo_ops() == pushed(before.undo_ops(), op)
    &&& after.redo_ops() == Seq::<EditOperation>::empty()
}

/// A command that recorded `op` made the change `op` describes to the
/// circuit it was recorded on.
pub open spec fn edit_made(op: EditOperation, before: CircuitView, after: CircuitView) -> bool {
    recorded_on(op, before) && apply_effect(op, before, after)
}

/// The history fits the circuit after a command when it did before.
pub open spec fn fit_kept(h0: EditHistory, c0: CircuitView, h1: EditHistory, c1: CircuitView) -> bool {
    h0.fits(c0) ==> h1.fits(c1)
}

/// Recording `op` as the command that turned `c0` into `c1` keeps the
/// history fitting.
proof fn lemma_recording_fits(h0: EditHistory, c0: Circuit, h1: EditHistory, c1: CircuitView, op: EditOperation)
    requires
        records(h0, h1, op),
        edit_made(op, c0@, c1),
        !(op is ReplaceCircuit),
        circuit_valid(c0@) ==> circuit_valid(c1),
    ensures
        fit_kept(h0, c0@, h1, c1),
{
    if h0.fits(c0@) {
        lemma_record_keeps_fit(h0.undo_ops(), h0.redo_ops(), op, c0, c1);
    }
}

/// An edit recorded by one of these commands is undone by the history:
/// undoing the top of the undo stack right after the command gives back
/// the circuit the command started from.
pub proof fn lemma_recorded_edit_undone(op: EditOperation, c0: Circuit, c1: CircuitView, undo0: Seq<EditOperation>, c2: CircuitView)
    requires
        !(op is ReplaceCircuit),
        edit_made(op, c0@, c1),
        revert_effect(pushed(undo0, op).last(), c1, c2),
    ensures
        can_revert(pushed(undo0, op).last(), c1),
        c2 == c0@,
{
    assert(pushed(undo0, op).last() == op);
    assert(swapped(op, c0) == op);
    lemma_undo_after_apply(op, c0, c1, c2);
}

/// A circuit replacement (new circuit, opened file, loaded example) is
/// undone by the history: undoing it gives the replaced circuit back.
pub proof fn lemma_replacement_undone(old_circuit: Circuit, c1: CircuitView, undo0: Seq<EditOperation>, c2: CircuitView)
    requires
        revert_effect(pushed(undo0, EditOperation::ReplaceCircuit { old_circuit }).last(), c1, c2),
    ensures
        c2 == old_circuit@,
{
}

/// Replaces the whole circuit, recording the replaced one; a pending
/// placement and the selection are dropped.
pub fn replace_circuit(circuit: &mut Circuit, history: &mut EditHistory, editor: &mut EditorState, new_circuit: Circuit)
    ensures
        *final(circuit) == new_circuit,
        records(*old(history), *final(history), EditOperation::ReplaceCircuit { old_circuit: *old(circuit) }),
        final(editor).multi_qubit_pending is None,
        selection(final(editor).selected_gates@) == Set::<usize>::empty(),
        final(editor).last_selected_gate is None,
        final(editor).clipboard == old(editor).clipboard,
        final(editor).context_menu == old(editor).context_menu,
        final(editor).editing_gate == old(editor).editing_gate,
        circuit_valid(new_circuit@) ==> fit_kept(*old(history), old(circuit)@, *final(history), final(circuit)@),
{
    let ghost h0 = *history;
    let mut other = new_circuit;
    std::mem::swap(circuit, &mut other);
    proof {
        if h0.fits(other@) && circuit_valid(circuit@) {
            lemma_replace_keeps_fit(h0.undo_ops(), h0.redo_ops(), other, circuit@);
        }
    }
    history.push(EditOperation::ReplaceCircuit { old_circuit: other });
    editor.cancel_pending();
    editor.clear_selection();
}

/// Adds a gate and records it. Returns whether it was valid and added.
pub fn add_gate_recorded(
    circuit: &mut Circuit,
    history: &mut EditHistory,
    gate: GateType,
    target_qubits: Vec<usize>,
    control_qubits: Vec<usize>,
    column: usize,
) -> (added: bool)
    ensures
        added == validate_result(gate, target_qubits@, control_qubits@, old(circuit).qubits@.len() as usize) is Ok,
        added ==> final(history).undo_ops().len() > 0,
        added ==> (final(history).undo_ops().last() matches EditOperation::AddGate { index, gate: g }
            && index == old(circuit).gates@.len()
            && g@ == (PlacedGateView { gate, targets: target_qubits@, controls: control_qubits@, column, parameters: Seq::empty() })),
        added ==> records(*old(history), *final(history), final(history).undo_ops().last())
            && edit_made(final(history).undo_ops().last(), old(circuit)@, final(circuit)@),
        !added ==> final(circuit)@ == old(circuit)@ && *final(history) == *old(history),
        fit_kept(*old(history), old(circuit)@, *final(history), final(circuit)@),
        circuit_valid(old(circuit)@) ==> circuit_valid(final(circuit)@),
{
    let ghost before = circuit@;
    let ghost h0 = *history;
    let ghost c0 = *circuit;
    let ghost expected = PlacedGateView { gate, targets: target_qubits@, controls: control_qubits@, column, parameters: Seq::empty() };
    if circuit.add_gate(gate, target_qubits, control_qubits, column).is_ok() {
        let idx = circuit.gates.len() - 1;
        let g = circuit.gates[idx].duplicate();
        assert(circuit@.gates[idx as int] == expected);
        let op = EditOperation::AddGate { index: idx, gate: g };
        let ghost gop = op;
        history.push(op);
        assert(before.gates.insert(idx as int, g@) =~= circuit@.gates);
        proof { lemma_recording_fits(h0, c0, *history, circuit@, gop); }
        true
    } else {
        false
    }
}

/// Adds a measurement and records it. Returns whether the qubit exists and
/// the measurement was added.
pub fn add_measurement_recorded(circuit: &mut Circuit, history: &mut EditHistory, qubit_id: usize, column: usize) -> (added: bool)
    ensures
        added == (qubit_id < old(circuit).qubits@.len()),
        added ==> {
            let op = EditOperation::AddMeasurement {
                index: old(circuit).measurements@.len() as usize,
                measurement: Measurement { qubit_id, column },
            };
            records(*old(history), *final(history), op) && edit_made(op, old(circuit)@, final(circuit)@)
        },
        !added ==> final(circuit)@ == old(circuit)@ && *final(history) == *old(history),
        fit_kept(*old(history), old(circuit)@, *final(history), final(circuit)@),
        circuit_valid(old(circuit)@) ==> circuit_valid(final(circuit)@),
{
    let ghost before = circuit@;
    let ghost h0 = *history;
    let ghost c0 = *circuit;
    if circuit.add_measurement(qubit_id, column).is_ok() {
        let idx = circuit.measurements.len() - 1;
        let m = circuit.measurements[idx];
        history.push(EditOperation::AddMeasurement { index: idx, measurement: m });
        assert(before.measurements.insert(idx as int, m) =~= circuit@.measurements);
        proof {
            lemma_recording_fits(h0, c0, *history, circuit@, EditOperation::AddMeasurement { index: idx, measurement: m });
        }
        true
    } else {
        false
    }
}

/// Deletes gate `gate_idx`, records it and drops the selection. Returns
/// whether there was such a gate.
pub fn delete_gate(circuit: &mut Circuit, history: &mut EditHistory, editor: &mut EditorState, gate_idx: usize) -> (deleted: bool)
    ensures
        deleted == (gate_idx < old(circuit).gates@.len()),
        deleted ==> {
            let op = EditOperation::RemoveGate { index: gate_idx, gate: old(circuit).gates@[gate_idx as int] };
            &&& records(*old(history), *final(history), op)
            &&& edit_made(op, old(circuit)@, final(circuit)@)
            &&& selection_dropped(*old(editor), *final(editor))
        },
        !deleted ==> final(circuit)@ == old(circuit)@ && *final(history) == *old(history) && *final(editor) == *old(editor),
        fit_kept(*old(history), old(circuit)@, *final(history), final(circuit)@),
        circuit_valid(old(circuit)@) ==> circuit_valid(final(circuit)@),
{
    let ghost before = circuit@;
    let ghost h0 = *history;
    let ghost c0 = *circuit;
    match circuit.remove_gate(gate_idx) {
        Some(removed) => {
            let ghost op = EditOperation::RemoveGate { index: gate_idx, gate: removed };
            history.push(EditOperation::RemoveGate { index: gate_idx, gate: removed });
            proof { lemma_recording_fits(h0, c0, *history, circuit@, op); }
            editor.clear_selection();
            true
        },
        None => false,
    }
}

/// Deletes measurement `measurement_idx` and records it. Returns whether
/// there was such a measurement.
pub fn delete_measurement(circuit: &mut Circuit, history: &mut EditHistory, measurement_idx: usize) -> (deleted: bool)
    ensures
        deleted == (measurement_idx < old(circuit).measurements@.len()),
        deleted ==> {
            let op = EditOperation::RemoveMeasurement {
                index: measurement_idx,
                measurement: old(circuit).measurements@[measurement_idx as int],
            };
            records(*old(history), *final(history), op) && edit_made(op, old(circuit)@, final(circuit)@)
        },
        !deleted ==> final(circuit)@ == old(circuit)@ && *final(history) == *old(history),
        fit_kept(*old(history), old(circuit)@, *final(history), final(circuit)@),
        circuit_valid(old(circuit)@) ==> circuit_valid(final(circuit)@),
{
    let ghost h0 = *history;
    let ghost c0 = *circuit;
    match circuit.remove_measurement(measurement_idx) {
        Some(removed) => {
            history.push(EditOperation::RemoveMeasurement { index: measurement_idx, measurement: removed });
            proof {
                lemma_recording_fits(h0, c0, *history, circuit@,
                    EditOperation::RemoveMeasurement { index: measurement_idx, measurement: removed });
            }
            true
        },
        None => false,
    }
}

/// Adds a wire at the end and records it.
pub fn add_qubit(circuit: &mut Circuit, history: &mut EditHistory)
    ensures
        records(*old(history), *final(history), EditOperation::AddQubit),
        edit_made(EditOperation::AddQubit, old(circuit)@, final(circuit)@),
        fit_kept(*old(history), old(circuit)@, *final(history), final(circuit)@),
        circuit_valid(old(circuit)@) ==> circuit_valid(final(circuit)@),
{
    let ghost h0 = *history;
    let ghost c0 = *circuit;
    circuit.add_qubit();
    history.push(EditOperation::AddQubit);
    proof { lemma_recording_fits(h0, c0, *history, circuit@, EditOperation::AddQubit); }
}

/// Removes the last wire when nothing uses it, records it and drops the
/// selection. Returns whether a wire was removed.
pub fn remove_last_qubit(circuit: &mut Circuit, history: &mut EditHistory, editor: &mut EditorState) -> (removed: bool)
    ensures
        removed == (old(circuit).qubits@.len() > 0 && !qubit_in_use(old(circuit)@, (old(circuit).qubits@.len() - 1) as usize)),
        removed ==> {
            let last = (old(circuit).qubits@.len() - 1) as usize;
            let op = EditOperation::RemoveQubit { qubit_id: last, wire: old(circuit).qubits@[last as int] };
            &&& records(*old(history), *final(history), op)
            &&& apply_effect(op, old(circuit)@, final(circuit)@)
            &&& (wires_numbered(old(circuit)@.qubits) && indices_below(old(circuit)@, old(circuit).qubits@.len())
                ==> edit_made(op, old(circuit)@, final(circuit)@))
            &&& selection_dropped(*old(editor), *final(editor))
        },
        !removed ==> final(circuit)@ == old(circuit)@ && *final(history) == *old(history) && *final(editor) == *old(editor),
        fit_kept(*old(history), old(circuit)@, *final(history), final(circuit)@),
        circuit_valid(old(circuit)@) ==> circuit_valid(final(circuit)@),
{
    let ghost h0 = *history;
    let ghost c0 = *circuit;
    let n = circuit.num_qubits();
    if n == 0 {
        return false;
    }
    let last = n - 1;
    let wire = circuit.qubits[last].duplicate();
    match circuit.remove_qubit(last) {
        Ok(()) => {
            let ghost op = EditOperation::RemoveQubit { qubit_id: last, wire };
            history.push(EditOperation::RemoveQubit { qubit_id: last, wire });
            proof {
                if h0.fits(c0@) {
                    lemma_valid_indices(c0@);
                    lemma_recording_fits(h0, c0, *history, circuit@, op);
                }
            }
            editor.clear_selection();
            true
        },
        Err(_) => false,
    }
}

/// A rotation with its angle replaced by `theta`; other gates unchanged.
pub open spec fn with_angle(g: GateType, theta: u64) -> GateType {
    match g {
        GateType::Rx(_) => GateType::Rx(theta),
        GateType::Ry(_) => GateType::Ry(theta),
        GateType::Rz(_) => GateType::Rz(theta),
        _ => g,
    }
}

fn angle_replaced(g: &GateType, theta: u64) -> (r: GateType)
    ensures
        r == with_angle(*g, theta),
        spec_num_qubits(r) == spec_num_qubits(*g),
        spec_num_controls(r) == spec_num_controls(*g),
{
    match g {
        GateType::Rx(_) => GateType::Rx(theta),
        GateType::Ry(_) => GateType::Ry(theta),
        GateType::Rz(_) => GateType::Rz(theta),
        _ => g.duplicate(),
    }
}

/// Sets the angle of rotation gate `gate_idx` (the parameter editor's
/// Apply) and records the change. Returns whether there was such a
/// rotation; otherwise nothing changes.
pub fn edit_gate_angle(circuit: &mut Circuit, history: &mut EditHistory, gate_idx: usize, theta: u64) -> (edited: bool)
    ensures
        edited == (gate_idx < old(circuit).gates@.len() && spec_is_parameterized(old(circuit).gates@[gate_idx as int].gate)),
        edited ==> {
            let g = old(circuit).gates@[gate_idx as int].gate;
            let op = EditOperation::EditParam { gate_index: gate_idx, old_gate_type: g, new_gate_type: with_angle(g, theta) };
            records(*old(history), *final(history), op) && edit_made(op, old(circuit)@, final(circuit)@)
        },
        !edited ==> final(circuit)@ == old(circuit)@ && *final(history) == *old(history),
        fit_kept(*old(history), old(circuit)@, *final(history), final(circuit)@),
        circuit_valid(old(circuit)@) ==> circuit_valid(final(circuit)@),
{
    if gate_idx >= circuit.gates.len() {
        return false;
    }
    let old_type = circuit.gates[gate_idx].gate.duplicate();
    let new_type = angle_replaced(&old_type, theta);
    let recorded = new_type.duplicate();
    let ghost before = circuit@;
    assert(before.gates[gate_idx as int].gate == old_type);
    let ghost h0 = *history;
    let ghost c0 = *circuit;
    let r = circuit.update_gate_parameters(gate_idx, new_type);
    if r.is_err() {
        return false;
    }
    let op = EditOperation::EditParam { gate_index: gate_idx, old_gate_type: old_type, new_gate_type: recorded };
    let ghost gop = op;
    history.push(op);
    proof { lemma_recording_fits(h0, c0, *history, circuit@, gop); }
    true
}

fn all_below(v: &Vec<usize>, n: usize) -> (b: bool)
    ensures
        b == (forall|k: int| 0 <= k < v@.len() ==> v@[k] < n),
{
    let mut i: usize = 0;
    while i < v.len()
        invariant
            i <= v@.len(),
            forall|k: int| 0 <= k < i ==> v@[k] < n,
        decreases v@.len() - i,
    {
        if v[i] >= n {
            return false;
        }
        i = i + 1;
    }
    true
}

fn copy_qubits(v: &Vec<usize>) -> (r: Vec<usize>)
    ensures
        r@ == v@,
{
    let mut r: Vec<usize> = Vec::new();
    let mut i: usize = 0;
    while i < v.len()
        invariant
            i <= v@.len(),
            r@ == v@.take(i as int),
        decreases v@.len() - i,
    {
        r.push(v[i]);
        i = i + 1;
        assert(r@ =~= v@.take(i as int));
    }
    assert(v@.take(v@.len() as int) =~= v@);
    r
}

/// Whether a pasted copy of `g` fits a circuit of `n` qubits: its qubits
/// exist and it is a valid gate there.
pub open spec fn paste_fits(g: PlacedGateView, n: usize) -> bool {
    &&& forall|k: int| 0 <= k < g.targets.len() ==> g.targets[k] < n
    &&& forall|k: int| 0 <= k < g.controls.len() ==> g.controls[k] < n
    &&& validate_result(g.gate, g.targets, g.controls, n) is Ok
}

/// Pastes a copy of `gate`, on the same qubits, at `target_column`, and
/// records it. Returns whether it fit and was added.
pub fn paste_gate_at_column(circuit: &mut Circuit, history: &mut EditHistory, gate: &PlacedGate, target_column: usize) -> (pasted: bool)
    ensures
        pasted == paste_fits(gate@, old(circuit).qubits@.len() as usize),
        pasted ==> final(history).undo_ops().len() > 0,
        pasted ==> (final(history).undo_ops().last() matches EditOperation::AddGate { index, gate: g }
            && index == old(circuit).gates@.len()
            && g@ == (PlacedGateView { column: target_column, parameters: Seq::empty(), ..gate@ })),
        pasted ==> records(*old(history), *final(history), final(history).undo_ops().last())
            && edit_made(final(history).undo_ops().last(), old(circuit)@, final(circuit)@),
        !pasted ==> final(circuit)@ == old(circuit)@ && *final(history) == *old(history),
        fit_kept(*old(history), old(circuit)@, *final(history), final(circuit)@),
        circuit_valid(old(circuit)@) ==> circuit_valid(final(circuit)@),
{
    let n = circuit.num_qubits();
    if all_below(&gate.target_qubits, n) && all_below(&gate.control_qubits, n) {
        let targets = copy_qubits(&gate.target_qubits);
        let controls = copy_qubits(&gate.control_qubits);
        add_gate_recorded(circuit, history, gate.gate.duplicate(), targets, controls, target_column)
    } else {
        false
    }
}

/// Pastes the clipboard's gate at the column of gate `target_gate_idx`.
/// Returns whether a gate was pasted.
pub fn paste_at(circuit: &mut Circuit, history: &mut EditHistory, editor: &EditorState, target_gate_idx: usize) -> (pasted: bool)
    ensures
        pasted == (editor.clipboard matches Some(ClipboardContent::Single { gate, .. })
            && target_gate_idx < old(circuit).gates@.len()
            && paste_fits(gate@, old(circuit).qubits@.len() as usize)),
        pasted ==> (editor.clipboard matches Some(ClipboardContent::Single { gate, .. })
            && final(history).undo_ops().last() matches EditOperation::AddGate { index, gate: g }
            && index == old(circuit).gates@.len()
            && g@ == (PlacedGateView {
                column: old(circuit).gates@[target_gate_idx as int].column,
                parameters: Seq::empty(),
                ..gate@
            })),
        pasted ==> final(history).undo_ops().len() > 0
            && records(*old(history), *final(history), final(history).undo_ops().last())
            && edit_made(final(history).undo_ops().last(), old(circuit)@, final(circuit)@),
        !pasted ==> final(circuit)@ == old(circuit)@ && *final(history) == *old(history),
        fit_kept(*old(history), old(circuit)@, *final(history), final(circuit)@),
        circuit_valid(old(circuit)@) ==> circuit_valid(final(circuit)@),
{
    match &editor.clipboard {
        Some(ClipboardContent::Single { gate, .. }) => {
            if target_gate_idx < circuit.gates.len() {
                let column = circuit.gates[target_gate_idx].column;
                paste_gate_at_column(circuit, history, gate, column)
            } else {
                false
            }
        },
        _ => false,
    }
}

/// The column a keyboard paste goes to: that of the last selected gate,
/// or, with none selected, the one after the last gate.
pub open spec fn paste_column(c: CircuitView, editor: EditorState) -> Option<usize> {
    match editor.last_selected_gate {
        Some(id) => if id.index < c.gates.len() { Some(c.gates[id.index as int].column) } else { None },
        None => if c.gates.len() > 0 { Some((c.gates.last().column + 1) as usize) } else { None },
    }
}

/// Pastes the clipboard's gate at `paste_column`. Returns whether a gate
/// was pasted.
pub fn paste(circuit: &mut Circuit, history: &mut EditHistory, editor: &EditorState) -> (pasted: bool)
    requires
        old(circuit).gates@.len() > 0 && editor.last_selected_gate is None ==> old(circuit).gates@.last().column < usize::MAX,
    ensures
        pasted == (editor.clipboard matches Some(ClipboardContent::Single { gate, .. })
            && paste_column(old(circuit)@, *editor) is Some
            && paste_fits(gate@, old(circuit).qubits@.len() as usize)),
        pasted ==> (editor.clipboard matches Some(ClipboardContent::Single { gate, .. })
            && final(history).undo_ops().last() matches EditOperation::AddGate { index, gate: g }
            && index == old(circuit).gates@.len()
            && g@ == (PlacedGateView {
                column: paste_column(old(circuit)@, *editor)->Some_0,
                parameters: Seq::empty(),
                ..gate@
            })),
        pasted ==> final(history).undo_ops().len() > 0
            && records(*old(history), *final(history), final(history).undo_ops().last())
            && edit_made(final(history).undo_ops().last(), old(circuit)@, final(circuit)@),
        !pasted ==> final(circuit)@ == old(circuit)@ && *final(history) == *old(history),
        fit_kept(*old(history), old(circuit)@, *final(history), final(circuit)@),
        circuit_valid(old(circuit)@) ==> circuit_valid(final(circuit)@),
{
    match &editor.clipboard {
        Some(ClipboardContent::Single { gate, .. }) => {
            let column = match editor.last_selected_gate {
                Some(id) => if id.index < circuit.gates.len() { Some(circuit.gates[id.index].column) } else { None },
                None => {
                    let n = circuit.gates.len();
                    if n > 0 {
                        assert(circuit.gates@[n - 1]@ == circuit@.gates.last());
                        Some(circuit.gates[n - 1].column + 1)
                    } else {
                        None
                    }
                },
            };
            match column {
                Some(col) => paste_gate_at_column(circuit, history, gate, col),
                None => false,
            }
        },
        _ => false,
    }
}

/// Copies the first selected gate, in selection order, to the clipboard,
/// when it is a gate of the circuit. Returns whether it did.
pub fn copy_selected(circuit: &Circuit, editor: &mut EditorState) -> (copied: bool)
    ensures
        copied == (old(editor).selected_gates@.len() > 0 && old(editor).selected_gates@[0].index < circuit.gates@.len()),
        copied ==> (final(editor).clipboard matches Some(ClipboardContent::Single { gate: g, original_column, original_qubits })
            && g@ == circuit@.gates[old(editor).selected_gates@[0].index as int]
            && original_column == circuit@.gates[old(editor).selected_gates@[0].index as int].column),
        copied ==> final(editor).selected_gates == old(editor).selected_gates,
        !copied ==> *final(editor) == *old(editor),
{
    if editor.selected_gates.len() > 0 {
        let idx = editor.selected_gates[0].index;
        if idx < circuit.gates.len() {
            editor.copy_gate(&circuit.gates[idx]);
            return true;
        }
    }
    false
}

/// The gates from position `i` on whose indices `sel` does not hold.
pub open spec fn kept_from(gs: Seq<PlacedGate>, sel: Set<usize>, i: nat) -> Seq<PlacedGate>
    decreases gs.len() - i,
{
    if i >= gs.len() {
        Seq::empty()
    } else if sel.contains(i as usize) {
        kept_from(gs, sel, i + 1)
    } else {
        seq![gs[i as int]] + kept_from(gs, sel, i + 1)
    }
}

/// The removals of the selected gates from position `i` on, highest
/// index first.
pub open spec fn removals_from(gs: Seq<PlacedGate>, sel: Set<usize>, i: nat) -> Seq<EditOperation>
    decreases gs.len() - i,
{
    if i >= gs.len() {
        Seq::empty()
    } else if sel.contains(i as usize) {
        removals_from(gs, sel, i + 1).push(EditOperation::RemoveGate { index: i as usize, gate: gs[i as int] })
    } else {
        removals_from(gs, sel, i + 1)
    }
}

/// The undo stack after recording `ops` one after the other.
pub open spec fn pushed_all(undo: Seq<EditOperation>, ops: Seq<EditOperation>) -> Seq<EditOperation>
    decreases ops.len(),
{
    if ops.len() == 0 {
        undo
    } else {
        pushed(pushed_all(undo, ops.drop_last()), ops.last())
    }
}

proof fn lemma_pushed_all_push(undo: Seq<EditOperation>, ops: Seq<EditOperation>, op: EditOperation)
    ensures
        pushed_all(undo, ops.push(op)) == pushed(pushed_all(undo, ops), op),
{
    assert(ops.push(op).drop_last() =~= ops);
}

/// Deletes every selected gate, from the highest index down, recording each
/// removal; with a selection, the selection is then dropped. Returns whether
/// anything was selected.
pub fn delete_selected(circuit: &mut Circuit, history: &mut EditHistory, editor: &mut EditorState) -> (had_selection: bool)
    ensures
        had_selection == (old(editor).selected_gates@.len() > 0),
        final(circuit).gates@ == kept_from(old(circuit).gates@, selection(old(editor).selected_gates@), 0),
        final(circuit).qubits@ == old(circuit).qubits@,
        final(circuit).measurements@ == old(circuit).measurements@,
        final(history).undo_ops() == pushed_all(old(history).undo_ops(),
            removals_from(old(circuit).gates@, selection(old(editor).selected_gates@), 0)),
        final(history).redo_ops() == if removals_from(old(circuit).gates@, selection(old(editor).selected_gates@), 0).len() > 0 {
            Seq::<EditOperation>::empty()
        } else {
            old(history).redo_ops()
        },
        had_selection ==> selection_dropped(*old(editor), *final(editor)),
        !had_selection ==> *final(editor) == *old(editor),
        fit_kept(*old(history), old(circuit)@, *final(history), final(circuit)@),
        circuit_valid(old(circuit)@) ==> circuit_valid(final(circuit)@),
{
    let ghost gs = circuit.gates@;
    let ghost sel = selection(editor.selected_gates@);
    let ghost undo0 = history.undo_ops();
    let ghost redo0 = history.redo_ops();
    let ghost fit0 = history.fits(circuit@);
    let mut idx: usize = circuit.gates.len();
    assert(circuit.gates@ =~= gs.take(idx as int) + kept_from(gs, sel, idx as nat));
    while idx > 0
        invariant
            idx <= gs.len(),
            sel == selection(editor.selected_gates@),
            circuit.gates@ == gs.take(idx as int) + kept_from(gs, sel, idx as nat),
            circuit.qubits@ == old(circuit).qubits@,
            circuit.measurements@ == old(circuit).measurements@,
            history.undo_ops() == pushed_all(undo0, removals_from(gs, sel, idx as nat)),
            history.redo_ops() == if removals_from(gs, sel, idx as nat).len() > 0 { Seq::<EditOperation>::empty() } else { redo0 },
            fit0 ==> history.fits(circuit@),
            circuit_valid(old(circuit)@) ==> circuit_valid(circuit@),
        decreases idx,
    {
        let i = idx - 1;
        if editor.is_gate_selected(i) {
            assert(circuit.gates@[i as int] == gs[i as int]);
            let ghost h1 = *history;
            let ghost c1 = *circuit;
            let removed = circuit.remove_gate(i);
            match removed {
                Some(g) => {
                    history.push(EditOperation::RemoveGate { index: i, gate: g });
                    proof { lemma_recording_fits(h1, c1, *history, circuit@, EditOperation::RemoveGate { index: i, gate: g }); }
                    proof {
                        lemma_pushed_all_push(undo0, removals_from(gs, sel, idx as nat),
                            EditOperation::RemoveGate { index: i, gate: gs[i as int] });
                    }
                },
                None => {},
            }
            assert(circuit.gates@ =~= gs.take(i as int) + kept_from(gs, sel, i as nat));
        } else {
            assert(gs.take(idx as int) =~= gs.take(i as int).push(gs[i as int]));
            assert(circuit.gates@ =~= gs.take(i as int) + kept_from(gs, sel, i as nat));
        }
        idx = i;
    }
    assert(gs.take(0) =~= Seq::<PlacedGate>::empty());
    assert(circuit.gates@ =~= kept_from(gs, sel, 0));
    if editor.selected_gates.len() > 0 {
        editor.clear_selection();
        true
    } else {
        false
    }
}

/// An entry of the context menu.
#[derive(Debug, Clone, Copy, PartialEq, Eq, Structural)]
pub enum MenuEntry {
    /// Edit Parameters... (rotations).
    EditParameters,
    /// Copy this gate.
    Copy,
    /// Paste the clipboard's gate at this gate's column.
    PasteHere,
    /// Delete this gate or measurement.
    Delete,
}

/// The entries the open context menu offers, top to bottom: for a gate of
/// the circuit, Edit Parameters... when it is a rotation, Copy, Paste Here
/// when the clipboard holds something, and Delete; for a measurement,
/// Delete. A gate index out of range, or no open menu, offers nothing.
pub open spec fn menu_entries(c: CircuitView, e: EditorState) -> Seq<MenuEntry> {
    match e.context_menu {
        None => Seq::empty(),
        Some(m) => match m.item_type {
            ContextMenuType::Measurement => seq![MenuEntry::Delete],
            ContextMenuType::Gate => if m.item_index < c.gates.len() {
                (if spec_is_parameterized(c.gates[m.item_index as int].gate) { seq![MenuEntry::EditParameters] } else { Seq::empty() })
                    + seq![MenuEntry::Copy]
                    + (if e.clipboard is Some { seq![MenuEntry::PasteHere] } else { Seq::empty() })
                    + seq![MenuEntry::Delete]
            } else {
                Seq::empty()
            },
        },
    }
}

/// The entries the open context menu offers (see `menu_entries`).
pub fn context_menu_entries(circuit: &Circuit, editor: &EditorState) -> (v: Vec<MenuEntry>)
    ensures
        v@ == menu_entries(circuit@, *editor),
{
    let mut v: Vec<MenuEntry> = Vec::new();
    match &editor.context_menu {
        None => {},
        Some(m) => match m.item_type {
            ContextMenuType::Measurement => {
                v.push(MenuEntry::Delete);
            },
            ContextMenuType::Gate => {
                if m.item_index < circuit.gates.len() {
                    let g = &circuit.gates[m.item_index];
                    assert(circuit@.gates[m.item_index as int] == g@);
                    let rotation = g.gate.is_parameterized();
                    if rotation {
                        v.push(MenuEntry::EditParameters);
                    }
                    v.push(MenuEntry::Copy);
                    if editor.has_clipboard_content() {
                        v.push(MenuEntry::PasteHere);
                    }
                    v.push(MenuEntry::Delete);
                    assert(v@ =~= menu_entries(circuit@, *editor));
                }
            },
        },
    }
    assert(v@ =~= menu_entries(circuit@, *editor));
    v
}

/// The editor after an undo or redo: no pending placement and nothing
/// selected, everything else as before.
pub open spec fn editing_reset(before: EditorState, after: EditorState) -> bool {
    &&& after.multi_qubit_pending is None
    &&& selection(after.selected_gates@) == Set::<usize>::empty()
    &&& after.last_selected_gate is None
    &&& after.clipboard == before.clipboard
    &&& after.context_menu == before.context_menu
    &&& after.editing_gate == before.editing_gate
}

/// Undoes the last edit; when there was one, the selection and any pending
/// placement are dropped. Returns whether there was one.
pub fn undo_edit(circuit: &mut Circuit, history: &mut EditHistory, editor: &mut EditorState) -> (done: bool)
    requires
        old(history).undo_ops().len() > 0 ==> can_revert(old(history).undo_ops().last(), old(circuit)@),
    ensures
        done == (old(history).undo_ops().len() > 0),
        done ==> revert_effect(old(history).undo_ops().last(), old(circuit)@, final(circuit)@)
            && final(history).undo_ops() == old(history).undo_ops().drop_last()
            && final(history).redo_ops() == old(history).redo_ops().push(swapped(old(history).undo_ops().last(), *old(circuit)))
            && editing_reset(*old(editor), *final(editor)),
        !done ==> *final(circuit) == *old(circuit) && *final(editor) == *old(editor)
            && final(history).undo_ops() == old(history).undo_ops() && final(history).redo_ops() == old(history).redo_ops(),
        fit_kept(*old(history), old(circuit)@, *final(history), final(circuit)@),
{
    let done = history.undo(circuit);
    if done {
        editor.clear_selection();
        editor.cancel_pending();
    }
    done
}

/// Applies the last undone edit again; when there was one, the selection
/// and any pending placement are dropped. Returns whether there was one.
pub fn redo_edit(circuit: &mut Circuit, history: &mut EditHistory, editor: &mut EditorState) -> (done: bool)
    requires
        old(history).redo_ops().len() > 0 ==> can_apply(old(history).redo_ops().last(), old(circuit)@),
    ensures
        done == (old(history).redo_ops().len() > 0),
        done ==> apply_effect(old(history).redo_ops().last(), old(circuit)@, final(circuit)@)
            && final(history).redo_ops() == old(history).redo_ops().drop_last()
            && final(history).undo_ops() == old(history).undo_ops().push(swapped(old(history).redo_ops().last(), *old(circuit)))
            && editing_reset(*old(editor), *final(editor)),
        !done ==> *final(circuit) == *old(circuit) && *final(editor) == *old(editor)
            && final(history).undo_ops() == old(history).undo_ops() && final(history).redo_ops() == old(history).redo_ops(),
        fit_kept(*old(history), old(circuit)@, *final(history), final(circuit)@),
{
    let done = history.redo(circuit);
    if done {
        editor.clear_selection();
        editor.cancel_pending();
    }
    done
}


/// Editing a rotation's angle keeps its axis and leaves exactly the new
/// angle; any other gate is left as it is.
pub proof fn lemma_with_angle(g: GateType, theta: u64)
    ensures
        (with_angle(g, theta) is Rx) == (g is Rx),
        (with_angle(g, theta) is Ry) == (g is Ry),
        (with_angle(g, theta) is Rz) == (g is Rz),
        spec_is_parameterized(g) ==> spec_parameters(with_angle(g, theta)) == seq![theta],
        !spec_is_parameterized(g) ==> with_angle(g, theta) == g,
{
}

} // verus!
