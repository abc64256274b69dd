//! Operation-based undo/redo for circuit edits.
//!
//! Each recorded operation holds what is needed both to reverse it and to
//! apply it again. The undo stack keeps at most `MAX_HISTORY` operations;
//! recording a new operation clears the redo stack. Stacks that fit the
//! circuit (`EditHistory::fits`) keep fitting it through recording, undo
//! and redo, so every undo and redo on them can proceed.
use vstd::prelude::*;
use crate::circuit::{
    Circuit, CircuitView, Measurement, PlacedGate, PlacedGateView, circuit_valid, gate_remapped, gate_uses, indices_below,
    ops_remapped, qubit_in_use, renumbered_views, lemma_wire_views_edits, shift_up, shifted_down,
    shifted_up,
};
use crate::gate::GateType;
use crate::wire::{QubitWire, WireView, default_label};

verus! {

/// Most operations the undo stack keeps.
pub const MAX_HISTORY: usize = 100;

/// A reversible edit operation on the circuit.
#[derive(Debug, Clone)]
pub enum EditOperation {
    /// A gate was inserted at `index`.
    AddGate { index: usize, gate: PlacedGate },
    /// Gate `index` was removed.
    RemoveGate { index: usize, gate: PlacedGate },
    /// A measurement was inserted at `index`.
    AddMeasurement { index: usize, measurement: Measurement },
    /// The measurement at `index` was removed.
    RemoveMeasurement { index: usize, measurement: Measurement },
    /// The type of gate `gate_index` changed.
    EditParam { gate_index: usize, old_gate_type: GateType, new_gate_type: GateType },
    /// A wire was added at the end.
    AddQubit,
    /// Wire `qubit_id` (which was `wire`) was removed.
    RemoveQubit { qubit_id: usize, wire: QubitWire },
    /// The whole circuit was replaced; `old_circuit` holds the other one and
    /// trades places with the current one on each undo and redo.
    ReplaceCircuit { old_circuit: Circuit },
}

/// Each wire's id is its position.
pub open spec fn wires_numbered(ws: Seq<WireView>) -> bool {
    forall|k: int| 0 <= k < ws.len() ==> (#[trigger] ws[k]).id == k
}

/// `after` is `before` with qubits and measurements unchanged and the given gates.
pub open spec fn with_gates(before: CircuitView, after: CircuitView, gates: Seq<PlacedGateView>) -> bool {
    after.qubits == before.qubits && after.measurements == before.measurements && after.gates == gates
}

/// `after` is `before` with qubits and gates unchanged and the given measurements.
pub open spec fn with_measurements(before: CircuitView, after: CircuitView, ms: Seq<Measurement>) -> bool {
    after.qubits == before.qubits && after.gates == before.gates && after.measurements == ms
}

/// Applying (or applying again) the operation can proceed on `c`.
pub open spec fn can_apply(op: EditOperation, c: CircuitView) -> bool {
    match op {
        EditOperation::AddGate { index, .. } => index <= c.gates.len(),
        EditOperation::RemoveGate { index, .. } => index < c.gates.len(),
        EditOperation::AddMeasurement { index, .. } => index <= c.measurements.len(),
        EditOperation::RemoveMeasurement { index, .. } => index < c.measurements.len(),
        EditOperation::EditParam { gate_index, .. } => gate_index < c.gates.len(),
        _ => true,
    }
}

/// Undoing the operation can proceed on `c`.
pub open spec fn can_revert(op: EditOperation, c: CircuitView) -> bool {
    match op {
        EditOperation::AddGate { index, .. } => index < c.gates.len(),
        EditOperation::RemoveGate { index, .. } => index <= c.gates.len(),
        EditOperation::AddMeasurement { index, .. } => index < c.measurements.len(),
        EditOperation::RemoveMeasurement { index, .. } => index <= c.measurements.len(),
        EditOperation::EditParam { gate_index, .. } => gate_index < c.gates.len(),
        EditOperation::RemoveQubit { qubit_id, .. } => qubit_id <= c.qubits.len() && indices_below(c, usize::MAX as nat),
        _ => true,
    }
}

/// The wire added after `n` others: id `n`, default label.
pub open spec fn added_wire(n: nat) -> WireView {
    WireView { id: n as usize, label: default_label(n) }
}

/// What applying the operation to `before` gives.
pub open spec fn apply_effect(op: EditOperation, before: CircuitView, after: CircuitView) -> bool {
    match op {
        EditOperation::AddGate { index, gate } => with_gates(before, after, before.gates.insert(index as int, gate@)),
        EditOperation::RemoveGate { index, .. } => with_gates(before, after, before.gates.remove(index as int)),
        EditOperation::AddMeasurement { index, measurement } =>
            with_measurements(before, after, before.measurements.insert(index as int, measurement)),
        EditOperation::RemoveMeasurement { index, .. } =>
            with_measurements(before, after, before.measurements.remove(index as int)),
        EditOperation::EditParam { gate_index, new_gate_type, .. } => with_gates(before, after,
            before.gates.update(gate_index as int, PlacedGateView { gate: new_gate_type, ..before.gates[gate_index as int] })),
        EditOperation::AddQubit => {
            &&& after.qubits == before.qubits.push(added_wire(before.qubits.len()))
            &&& after.gates == before.gates
            &&& after.measurements == before.measurements
        },
        EditOperation::RemoveQubit { qubit_id, .. } => if qubit_id < before.qubits.len() && !qubit_in_use(before, qubit_id) {
            after.qubits == renumbered_views(before.qubits.remove(qubit_id as int)) && ops_remapped(before, after, shifted_down(qubit_id))
        } else {
            after == before
        },
        EditOperation::ReplaceCircuit { old_circuit } => after == old_circuit@,
    }
}

/// What undoing the operation on `before` gives.
pub open spec fn revert_effect(op: EditOperation, before: CircuitView, after: CircuitView) -> bool {
    match op {
        EditOperation::AddGate { index, .. } => with_gates(before, after, before.gates.remove(index as int)),
        EditOperation::RemoveGate { index, gate } => with_gates(before, after, before.gates.insert(index as int, gate@)),
        EditOperation::AddMeasurement { index, .. } =>
            with_measurements(before, after, before.measurements.remove(index as int)),
        EditOperation::RemoveMeasurement { index, measurement } =>
            with_measurements(before, after, before.measurements.insert(index as int, measurement)),
        EditOperation::EditParam { gate_index, old_gate_type, .. } => with_gates(before, after,
            before.gates.update(gate_index as int, PlacedGateView { gate: old_gate_type, ..before.gates[gate_index as int] })),
        EditOperation::AddQubit => {
            &&& after.qubits == (if before.qubits.len() > 0 { before.qubits.drop_last() } else { before.qubits })
            &&& after.gates == before.gates
            &&& after.measurements == before.measurements
        },
        EditOperation::RemoveQubit { qubit_id, wire } =>
            after.qubits == renumbered_views(before.qubits.insert(qubit_id as int, wire@)) && ops_remapped(before, after, shifted_up(qubit_id)),
        EditOperation::ReplaceCircuit { old_circuit } => after == old_circuit@,
    }
}

/// The operation as it stands after being applied or undone on a circuit
/// that was `c`: a replacement now holds `c`, other operations are unchanged.
pub open spec fn swapped(op: EditOperation, c: Circuit) -> EditOperation {
    match op {
        EditOperation::ReplaceCircuit { .. } => EditOperation::ReplaceCircuit { old_circuit: c },
        _ => op,
    }
}

impl EditOperation {
    /// Applies the reverse of this operation to the circuit.
    pub fn undo(&mut self, circuit: &mut Circuit)
        requires
            can_revert(*old(self), old(circuit)@),
        ensures
            revert_effect(*old(self), old(circuit)@, final(circuit)@),
            *final(self) == swapped(*old(self), *old(circuit)),
    {
        match self {
            EditOperation::AddGate { index, .. } => {
                circuit.gates.remove(*index);
                assert(circuit@.gates =~= old(circuit)@.gates.remove(*index as int));
            },
            EditOperation::RemoveGate { index, gate } => {
                circuit.gates.insert(*index, gate.duplicate());
                assert(circuit@.gates =~= old(circuit)@.gates.insert(*index as int, gate@));
            },
            EditOperation::AddMeasurement { index, .. } => {
                circuit.measurements.remove(*index);
            },
            EditOperation::RemoveMeasurement { index, measurement } => {
                circuit.measurements.insert(*index, *measurement);
            },
            EditOperation::EditParam { gate_index, old_gate_type, .. } => {
                let mut g = circuit.gates.remove(*gate_index);
                g.gate = old_gate_type.duplicate();
                circuit.gates.insert(*gate_index, g);
                assert(circuit@.gates =~= old(circuit)@.gates.update(*gate_index as int,
                    PlacedGateView { gate: *old_gate_type, ..old(circuit)@.gates[*gate_index as int] }));
            },
            EditOperation::AddQubit => {
                proof {
                    if circuit.qubits@.len() > 0 {
                        lemma_wire_views_edits(circuit.qubits@, 0, circuit.qubits@[0]);
                    }
                }
                circuit.qubits.pop();
            },
            EditOperation::RemoveQubit { qubit_id, wire } => {
                circuit.reinsert_qubit(*qubit_id, wire.duplicate());
            },
            EditOperation::ReplaceCircuit { old_circuit } => {
                std::mem::swap(circuit, old_circuit);
            },
        }
    }

    /// Applies this operation again.
    pub fn redo(&mut self, circuit: &mut Circuit)
        requires
            can_apply(*old(self), old(circuit)@),
        ensures
            apply_effect(*old(self), old(circuit)@, final(circuit)@),
            *final(self) == swapped(*old(self), *old(circuit)),
    {
        match self {
            EditOperation::AddGate { index, gate } => {
                circuit.gates.insert(*index, gate.duplicate());
                assert(circuit@.gates =~= old(circuit)@.gates.insert(*index as int, gate@));
            },
            EditOperation::RemoveGate { index, .. } => {
                circuit.gates.remove(*index);
                assert(circuit@.gates =~= old(circuit)@.gates.remove(*index as int));
            },
            EditOperation::AddMeasurement { index, measurement } => {
                circuit.measurements.insert(*index, *measurement);
            },
            EditOperation::RemoveMeasurement { index, .. } => {
                circuit.measurements.remove(*index);
            },
            EditOperation::EditParam { gate_index, new_gate_type, .. } => {
                let mut g = circuit.gates.remove(*gate_index);
                g.gate = new_gate_type.duplicate();
                circuit.gates.insert(*gate_index, g);
                assert(circuit@.gates =~= old(circuit)@.gates.update(*gate_index as int,
                    PlacedGateView { gate: *new_gate_type, ..old(circuit)@.gates[*gate_index as int] }));
            },
            EditOperation::AddQubit => {
                circuit.add_qubit();
            },
            EditOperation::RemoveQubit { qubit_id, .. } => {
                let _ = circuit.remove_qubit(*qubit_id);
            },
            EditOperation::ReplaceCircuit { old_circuit } => {
                std::mem::swap(circuit, old_circuit);
            },
        }
    }
}

fn revert_fits(op: &EditOperation, circuit: &Circuit) -> (b: bool)
    ensures
        b == can_revert(*op, circuit@),
{
    match op {
        EditOperation::AddGate { index, .. } => *index < circuit.gates.len(),
        EditOperation::RemoveGate { index, .. } => *index <= circuit.gates.len(),
        EditOperation::AddMeasurement { index, .. } => *index < circuit.measurements.len(),
        EditOperation::RemoveMeasurement { index, .. } => *index <= circuit.measurements.len(),
        EditOperation::EditParam { gate_index, .. } => *gate_index < circuit.gates.len(),
        EditOperation::RemoveQubit { qubit_id, .. } => *qubit_id <= circuit.qubits.len() && indices_not_max(circuit),
        _ => true,
    }
}

fn apply_fits(op: &EditOperation, circuit: &Circuit) -> (b: bool)
    ensures
        b == can_apply(*op, circuit@),
{
    match op {
        EditOperation::AddGate { index, .. } => *index <= circuit.gates.len(),
        EditOperation::RemoveGate { index, .. } => *index < circuit.gates.len(),
        EditOperation::AddMeasurement { index, .. } => *index <= circuit.measurements.len(),
        EditOperation::RemoveMeasurement { index, .. } => *index < circuit.measurements.len(),
        EditOperation::EditParam { gate_index, .. } => *gate_index < circuit.gates.len(),
        _ => true,
    }
}

fn none_is_max(v: &Vec<usize>) -> (b: bool)
    ensures
        b == (forall|k: int| 0 <= k < v@.len() ==> v@[k] < usize::MAX),
{
    let mut k: usize = 0;
    while k < v.len()
        invariant
            k <= v@.len(),
            forall|j: int| 0 <= j < k ==> v@[j] < usize::MAX,
        decreases v@.len() - k,
    {
        if v[k] == usize::MAX {
            return false;
        }
        k = k + 1;
    }
    true
}

/// Whether every qubit index the circuit's gates and measurements use is
/// below `usize::MAX`.
fn indices_not_max(circuit: &Circuit) -> (b: bool)
    ensures
        b == indices_below(circuit@, usize::MAX as nat),
{
    let ghost c = circuit@;
    let mut i: usize = 0;
    while i < circuit.gates.len()
        invariant
            i <= circuit.gates@.len(),
            c == circuit@,
            forall|j: int, k: int| 0 <= j < i && 0 <= k < c.gates[j].targets.len() ==> (#[trigger] c.gates[j].targets[k]) < usize::MAX,
            forall|j: int, k: int| 0 <= j < i && 0 <= k < c.gates[j].controls.len() ==> (#[trigger] c.gates[j].controls[k]) < usize::MAX,
        decreases circuit.gates@.len() - i,
    {
        assert(c.gates[i as int] == circuit.gates@[i as int]@);
        if !none_is_max(&circuit.gates[i].target_qubits) {
            proof {
                let v = circuit.gates@[i as int].target_qubits@;
                let k = choose|k: int| 0 <= k < v.len() && !(v[k] < usize::MAX);
                assert(!(c.gates[i as int].targets[k] < usize::MAX));
            }
            return false;
        }
        if !none_is_max(&circuit.gates[i].control_qubits) {
            proof {
                let v = circuit.gates@[i as int].control_qubits@;
                let k = choose|k: int| 0 <= k < v.len() && !(v[k] < usize::MAX);
                assert(!(c.gates[i as int].controls[k] < usize::MAX));
            }
            return false;
        }
        i = i + 1;
    }
    let mut m: usize = 0;
    while m < circuit.measurements.len()
        invariant
            m <= circuit.measurements@.len(),
            c == circuit@,
            forall|j: int| 0 <= j < m ==> (#[trigger] c.measurements[j]).qubit_id < usize::MAX,
        decreases circuit.measurements@.len() - m,
    {
        if circuit.measurements[m].qubit_id == usize::MAX {
            assert(!(c.measurements[m as int].qubit_id < usize::MAX));
            return false;
        }
        m = m + 1;
    }
    assert(forall|j: int, k: int| 0 <= j < c.gates.len() && 0 <= k < c.gates[j].targets.len() ==> (#[trigger] c.gates[j].targets[k]) < usize::MAX);
    true
}

/// An operation as recorded against the circuit `c` it was made on.
pub open spec fn recorded_on(op: EditOperation, c: CircuitView) -> bool {
    match op {
        EditOperation::AddGate { index, .. } => index <= c.gates.len(),
        EditOperation::RemoveGate { index, gate } => index < c.gates.len() && c.gates[index as int] == gate@,
        EditOperation::AddMeasurement { index, .. } => index <= c.measurements.len(),
        EditOperation::RemoveMeasurement { index, measurement } =>
            index < c.measurements.len() && c.measurements[index as int] == measurement,
        EditOperation::EditParam { gate_index, old_gate_type, .. } =>
            gate_index < c.gates.len() && c.gates[gate_index as int].gate == old_gate_type,
        EditOperation::AddQubit => true,
        EditOperation::RemoveQubit { qubit_id, wire } => {
            &&& qubit_id < c.qubits.len() <= usize::MAX
            &&& !qubit_in_use(c, qubit_id)
            &&& c.qubits[qubit_id as int] == wire@
            &&& wires_numbered(c.qubits)
            &&& indices_below(c, c.qubits.len())
        },
        EditOperation::ReplaceCircuit { .. } => true,
    }
}

/// The operation is the last one applied to give circuit `c`.
pub open spec fn undoable_on(op: EditOperation, c: CircuitView) -> bool {
    match op {
        EditOperation::AddGate { index, gate } => index < c.gates.len() && c.gates[index as int] == gate@,
        EditOperation::RemoveGate { index, .. } => index <= c.gates.len(),
        EditOperation::AddMeasurement { index, measurement } =>
            index < c.measurements.len() && c.measurements[index as int] == measurement,
        EditOperation::RemoveMeasurement { index, .. } => index <= c.measurements.len(),
        EditOperation::EditParam { gate_index, new_gate_type, .. } =>
            gate_index < c.gates.len() && c.gates[gate_index as int].gate == new_gate_type,
        EditOperation::AddQubit => c.qubits.len() > 0 && c.qubits.last() == added_wire((c.qubits.len() - 1) as nat),
        EditOperation::RemoveQubit { qubit_id, wire } => {
            &&& qubit_id <= c.qubits.len() < usize::MAX
            &&& wire.id == qubit_id
            &&& wires_numbered(c.qubits)
            &&& indices_below(c, c.qubits.len())
        },
        EditOperation::ReplaceCircuit { .. } => true,
    }
}

proof fn lemma_remap_roundtrip(c0: CircuitView, c1: CircuitView, c2: CircuitView, f: spec_fn(usize) -> usize, g: spec_fn(usize) -> usize)
    requires
        ops_remapped(c0, c1, f),
        ops_remapped(c1, c2, g),
        forall|i: int, k: int| 0 <= i < c0.gates.len() && 0 <= k < c0.gates[i].targets.len() ==> g(f(#[trigger] c0.gates[i].targets[k])) == c0.gates[i].targets[k],
        forall|i: int, k: int| 0 <= i < c0.gates.len() && 0 <= k < c0.gates[i].controls.len() ==> g(f(#[trigger] c0.gates[i].controls[k])) == c0.gates[i].controls[k],
        forall|i: int| 0 <= i < c0.measurements.len() ==> g(f((#[trigger] c0.measurements[i]).qubit_id)) == c0.measurements[i].qubit_id,
    ensures
        c2.gates == c0.gates,
        c2.measurements == c0.measurements,
{
    assert forall|i: int| 0 <= i < c0.gates.len() implies #[trigger] c2.gates[i] == c0.gates[i] by {
        assert(gate_remapped(c0.gates[i], c1.gates[i], f));
        assert(gate_remapped(c1.gates[i], c2.gates[i], g));
        assert(c2.gates[i].targets =~= c0.gates[i].targets);
        assert(c2.gates[i].controls =~= c0.gates[i].controls);
    }
    assert(c2.gates =~= c0.gates);
    assert forall|i: int| 0 <= i < c0.measurements.len() implies #[trigger] c2.measurements[i] == c0.measurements[i] by {
        assert(c1.measurements[i].qubit_id == f(c0.measurements[i].qubit_id));
    }
    assert(c2.measurements =~= c0.measurements);
}

proof fn lemma_shift_down_up(c0: CircuitView, c1: CircuitView, c2: CircuitView, id: usize)
    requires
        ops_remapped(c0, c1, shifted_down(id)),
        ops_remapped(c1, c2, shifted_up(id)),
        !qubit_in_use(c0, id),
        indices_below(c0, usize::MAX as nat),
    ensures
        c2.gates == c0.gates,
        c2.measurements == c0.measurements,
{
    let f = shifted_down(id);
    let g = shifted_up(id);
    assert forall|i: int, k: int| 0 <= i < c0.gates.len() && 0 <= k < c0.gates[i].targets.len()
        implies g(f(#[trigger] c0.gates[i].targets[k])) == c0.gates[i].targets[k] by {
        assert(!gate_uses(c0.gates[i], id));
        assert(c0.gates[i].targets.contains(c0.gates[i].targets[k]));
    }
    assert forall|i: int, k: int| 0 <= i < c0.gates.len() && 0 <= k < c0.gates[i].controls.len()
        implies g(f(#[trigger] c0.gates[i].controls[k])) == c0.gates[i].controls[k] by {
        assert(!gate_uses(c0.gates[i], id));
        assert(c0.gates[i].controls.contains(c0.gates[i].controls[k]));
    }
    assert forall|i: int| 0 <= i < c0.measurements.len()
        implies g(f((#[trigger] c0.measurements[i]).qubit_id)) == c0.measurements[i].qubit_id by {
    }
    lemma_remap_roundtrip(c0, c1, c2, f, g);
}

proof fn lemma_shift_up_down(c0: CircuitView, c1: CircuitView, c2: CircuitView, id: usize)
    requires
        ops_remapped(c0, c1, shifted_up(id)),
        ops_remapped(c1, c2, shifted_down(id)),
        indices_below(c0, usize::MAX as nat),
    ensures
        c2.gates == c0.gates,
        c2.measurements == c0.measurements,
{
    let f = shifted_up(id);
    let g = shifted_down(id);
    lemma_remap_roundtrip(c0, c1, c2, f, g);
}

/// Undoing an operation right after applying it to the circuit it was
/// recorded on gives that circuit back.
pub proof fn lemma_undo_after_apply(op: EditOperation, c0: Circuit, c1: CircuitView, c2: CircuitView)
    requires
        recorded_on(op, c0@),
        apply_effect(op, c0@, c1),
        revert_effect(swapped(op, c0), c1, c2),
    ensures
        can_revert(swapped(op, c0), c1),
        c2 == c0@,
{
    let b = c0@;
    match op {
        EditOperation::AddGate { index, gate } => {
            assert(c2.gates =~= b.gates);
        },
        EditOperation::RemoveGate { index, gate } => {
            assert(c2.gates =~= b.gates);
        },
        EditOperation::AddMeasurement { index, measurement } => {
            assert(c2.measurements =~= b.measurements);
        },
        EditOperation::RemoveMeasurement { index, measurement } => {
            assert(c2.measurements =~= b.measurements);
        },
        EditOperation::EditParam { gate_index, old_gate_type, new_gate_type } => {
            assert(c2.gates =~= b.gates);
        },
        EditOperation::AddQubit => {
            assert(c2.qubits =~= b.qubits);
        },
        EditOperation::RemoveQubit { qubit_id, wire } => {
            assert(c1.qubits.len() == b.qubits.len() - 1);
            assert(indices_below(c1, usize::MAX as nat)) by {
                assert forall|i: int, k: int| 0 <= i < c1.gates.len() && 0 <= k < c1.gates[i].targets.len()
                    implies (#[trigger] c1.gates[i].targets[k]) < usize::MAX by {
                    assert(gate_remapped(b.gates[i], c1.gates[i], shifted_down(qubit_id)));
                    assert(b.gates[i].targets[k] < b.qubits.len());
                }
                assert forall|i: int, k: int| 0 <= i < c1.gates.len() && 0 <= k < c1.gates[i].controls.len()
                    implies (#[trigger] c1.gates[i].controls[k]) < usize::MAX by {
                    assert(gate_remapped(b.gates[i], c1.gates[i], shifted_down(qubit_id)));
                    assert(b.gates[i].controls[k] < b.qubits.len());
                }
                assert forall|i: int| 0 <= i < c1.measurements.len()
                    implies (#[trigger] c1.measurements[i]).qubit_id < usize::MAX by {
                    assert(b.measurements[i].qubit_id < b.qubits.len());
                }
            }
            assert forall|k: int| 0 <= k < b.qubits.len() implies #[trigger] c2.qubits[k] == b.qubits[k] by {
                assert(b.qubits[k].id == k);
            }
            assert(c2.qubits =~= b.qubits);
            lemma_shift_down_up(b, c1, c2, qubit_id);
        },
        EditOperation::ReplaceCircuit { old_circuit } => {},
    }
}

/// Applying an operation again right after undoing it gives the circuit
/// it was undone on.
pub proof fn lemma_apply_after_undo(op: EditOperation, c1: Circuit, c2: CircuitView, c3: CircuitView)
    requires
        undoable_on(op, c1@),
        revert_effect(op, c1@, c2),
        apply_effect(swapped(op, c1), c2, c3),
    ensures
        can_apply(swapped(op, c1), c2),
        c3 == c1@,
{
    let b = c1@;
    match op {
        EditOperation::AddGate { index, gate } => {
            assert(c3.gates =~= b.gates);
        },
        EditOperation::RemoveGate { index, gate } => {
            assert(c3.gates =~= b.gates);
        },
        EditOperation::AddMeasurement { index, measurement } => {
            assert(c3.measurements =~= b.measurements);
        },
        EditOperation::RemoveMeasurement { index, measurement } => {
            assert(c3.measurements =~= b.measurements);
        },
        EditOperation::EditParam { gate_index, old_gate_type, new_gate_type } => {
            assert(c3.gates =~= b.gates);
        },
        EditOperation::AddQubit => {
            assert forall|k: int| 0 <= k < c3.qubits.len() implies #[trigger] c3.qubits[k] == b.qubits[k] by {
                if k < c3.qubits.len() - 1 {
                    assert(c3.qubits[k] == c3.qubits.drop_last()[k]);
                }
            }
            assert(c3.qubits =~= b.qubits);
        },
        EditOperation::RemoveQubit { qubit_id, wire } => {
            assert(!qubit_in_use(c2, qubit_id)) by {
                assert forall|i: int| 0 <= i < c2.gates.len() implies !gate_uses(#[trigger] c2.gates[i], qubit_id) by {
                    assert(gate_remapped(b.gates[i], c2.gates[i], shifted_up(qubit_id)));
                    if c2.gates[i].targets.contains(qubit_id) {
                        let k = choose|k: int| 0 <= k < c2.gates[i].targets.len() && c2.gates[i].targets[k] == qubit_id;
                        assert(c2.gates[i].targets[k] == shift_up(qubit_id, b.gates[i].targets[k]));
                    }
                    if c2.gates[i].controls.contains(qubit_id) {
                        let k = choose|k: int| 0 <= k < c2.gates[i].controls.len() && c2.gates[i].controls[k] == qubit_id;
                        assert(c2.gates[i].controls[k] == shift_up(qubit_id, b.gates[i].controls[k]));
                    }
                }
                assert forall|i: int| 0 <= i < c2.measurements.len() implies (#[trigger] c2.measurements[i]).qubit_id != qubit_id by {
                    assert(c2.measurements[i].qubit_id == shift_up(qubit_id, b.measurements[i].qubit_id));
                }
            }
            assert(c2.qubits.len() == b.qubits.len() + 1);
            assert(indices_below(b, usize::MAX as nat));
            lemma_shift_up_down(b, c2, c3, qubit_id);
            assert forall|k: int| 0 <= k < b.qubits.len() implies #[trigger] c3.qubits[k] == b.qubits[k] by {
                assert(b.qubits[k].id == k);
            }
            assert(c3.qubits =~= b.qubits);
        },
        EditOperation::ReplaceCircuit { old_circuit } => {},
    }
}

/// Qubit indices moved down past a removed, unused qubit stay below the
/// new number of wires.
proof fn lemma_shift_down_bounds(c0: CircuitView, c1: CircuitView, q: usize, n: nat)
    requires
        ops_remapped(c0, c1, shifted_down(q)),
        indices_below(c0, n),
        !qubit_in_use(c0, q),
        q < n,
    ensures
        indices_below(c1, (n - 1) as nat),
{
    assert forall|i: int, k: int| 0 <= i < c1.gates.len() && 0 <= k < c1.gates[i].targets.len()
        implies (#[trigger] c1.gates[i].targets[k]) < n - 1 by {
        assert(gate_remapped(c0.gates[i], c1.gates[i], shifted_down(q)));
        assert(c0.gates[i].targets.contains(c0.gates[i].targets[k]));
        assert(!gate_uses(c0.gates[i], q));
    }
    assert forall|i: int, k: int| 0 <= i < c1.gates.len() && 0 <= k < c1.gates[i].controls.len()
        implies (#[trigger] c1.gates[i].controls[k]) < n - 1 by {
        assert(gate_remapped(c0.gates[i], c1.gates[i], shifted_down(q)));
        assert(c0.gates[i].controls.contains(c0.gates[i].controls[k]));
        assert(!gate_uses(c0.gates[i], q));
    }
    assert forall|i: int| 0 <= i < c1.measurements.len() implies (#[trigger] c1.measurements[i]).qubit_id < n - 1 by {
        assert(c0.measurements[i].qubit_id != q);
    }
}

/// Qubit indices moved up past a reinserted qubit stay below the new number
/// of wires and leave the reinserted qubit unused.
proof fn lemma_shift_up_bounds(c0: CircuitView, c1: CircuitView, q: usize, n: nat)
    requires
        ops_remapped(c0, c1, shifted_up(q)),
        indices_below(c0, n),
        n < usize::MAX,
    ensures
        indices_below(c1, n + 1),
        !qubit_in_use(c1, q),
{
    assert forall|i: int, k: int| 0 <= i < c1.gates.len() && 0 <= k < c1.gates[i].targets.len()
        implies (#[trigger] c1.gates[i].targets[k]) < n + 1 && c1.gates[i].targets[k] != q by {
        assert(gate_remapped(c0.gates[i], c1.gates[i], shifted_up(q)));
    }
    assert forall|i: int, k: int| 0 <= i < c1.gates.len() && 0 <= k < c1.gates[i].controls.len()
        implies (#[trigger] c1.gates[i].controls[k]) < n + 1 && c1.gates[i].controls[k] != q by {
        assert(gate_remapped(c0.gates[i], c1.gates[i], shifted_up(q)));
    }
    assert forall|i: int| 0 <= i < c1.gates.len() implies !gate_uses(#[trigger] c1.gates[i], q) by {
        if c1.gates[i].targets.contains(q) {
            let k = choose|k: int| 0 <= k < c1.gates[i].targets.len() && c1.gates[i].targets[k] == q;
            assert(c1.gates[i].targets[k] != q);
        }
        if c1.gates[i].controls.contains(q) {
            let k = choose|k: int| 0 <= k < c1.gates[i].controls.len() && c1.gates[i].controls[k] == q;
            assert(c1.gates[i].controls[k] != q);
        }
    }
}

/// An operation recorded on a circuit, once applied, is the last one
/// applied to the result.
proof fn lemma_applied_undoable(op: EditOperation, c0: Circuit, c1: CircuitView)
    requires
        recorded_on(op, c0@),
        apply_effect(op, c0@, c1),
    ensures
        undoable_on(swapped(op, c0), c1),
{
    let b = c0@;
    match op {
        EditOperation::AddQubit => {
            assert(c1.qubits.last() == added_wire(b.qubits.len()));
        },
        EditOperation::RemoveQubit { qubit_id, wire } => {
            assert(b.qubits[qubit_id as int].id == qubit_id);
            lemma_shift_down_bounds(b, c1, qubit_id, b.qubits.len());
        },
        _ => {},
    }
}

/// An operation that was the last one applied, once undone, is recorded on
/// the result.
proof fn lemma_reverted_recorded(op: EditOperation, c1: Circuit, c2: CircuitView)
    requires
        undoable_on(op, c1@),
        revert_effect(op, c1@, c2),
    ensures
        recorded_on(swapped(op, c1), c2),
{
    let b = c1@;
    match op {
        EditOperation::RemoveQubit { qubit_id, wire } => {
            lemma_shift_up_bounds(b, c2, qubit_id, b.qubits.len());
            assert(c2.qubits[qubit_id as int] == wire@);
        },
        _ => {},
    }
}

/// A gate with its qubit indices mapped through `f`.
pub open spec fn remapped_gate(g: PlacedGateView, f: spec_fn(usize) -> usize) -> PlacedGateView {
    PlacedGateView { targets: g.targets.map_values(f), controls: g.controls.map_values(f), ..g }
}

/// A measurement with its qubit mapped through `f`.
pub open spec fn remapped_measurement(m: Measurement, f: spec_fn(usize) -> usize) -> Measurement {
    Measurement { qubit_id: f(m.qubit_id), column: m.column }
}

/// The circuit with wires `qubits` and the gates and measurements of `c`
/// with their qubit indices mapped through `f`.
pub open spec fn remapped_circuit(c: CircuitView, qubits: Seq<WireView>, f: spec_fn(usize) -> usize) -> CircuitView {
    CircuitView {
        qubits,
        gates: c.gates.map_values(|g: PlacedGateView| remapped_gate(g, f)),
        measurements: c.measurements.map_values(|m: Measurement| remapped_measurement(m, f)),
    }
}

/// What undoing the operation on `c` gives (see `revert_effect`).
pub open spec fn reverted(op: EditOperation, c: CircuitView) -> CircuitView {
    match op {
        EditOperation::AddGate { index, .. } => CircuitView { gates: c.gates.remove(index as int), ..c },
        EditOperation::RemoveGate { index, gate } => CircuitView { gates: c.gates.insert(index as int, gate@), ..c },
        EditOperation::AddMeasurement { index, .. } =>
            CircuitView { measurements: c.measurements.remove(index as int), ..c },
        EditOperation::RemoveMeasurement { index, measurement } =>
            CircuitView { measurements: c.measurements.insert(index as int, measurement), ..c },
        EditOperation::EditParam { gate_index, old_gate_type, .. } => CircuitView {
            gates: c.gates.update(gate_index as int, PlacedGateView { gate: old_gate_type, ..c.gates[gate_index as int] }),
            ..c
        },
        EditOperation::AddQubit =>
            CircuitView { qubits: if c.qubits.len() > 0 { c.qubits.drop_last() } else { c.qubits }, ..c },
        EditOperation::RemoveQubit { qubit_id, wire } =>
            remapped_circuit(c, renumbered_views(c.qubits.insert(qubit_id as int, wire@)), shifted_up(qubit_id)),
        EditOperation::ReplaceCircuit { old_circuit } => old_circuit@,
    }
}

/// What applying the operation to `c` gives (see `apply_effect`).
pub open spec fn reapplied(op: EditOperation, c: CircuitView) -> CircuitView {
    match op {
        EditOperation::AddGate { index, gate } => CircuitView { gates: c.gates.insert(index as int, gate@), ..c },
        EditOperation::RemoveGate { index, .. } => CircuitView { gates: c.gates.remove(index as int), ..c },
        EditOperation::AddMeasurement { index, measurement } =>
            CircuitView { measurements: c.measurements.insert(index as int, measurement), ..c },
        EditOperation::RemoveMeasurement { index, .. } =>
            CircuitView { measurements: c.measurements.remove(index as int), ..c },
        EditOperation::EditParam { gate_index, new_gate_type, .. } => CircuitView {
            gates: c.gates.update(gate_index as int, PlacedGateView { gate: new_gate_type, ..c.gates[gate_index as int] }),
            ..c
        },
        EditOperation::AddQubit => CircuitView { qubits: c.qubits.push(added_wire(c.qubits.len())), ..c },
        EditOperation::RemoveQubit { qubit_id, .. } => if qubit_id < c.qubits.len() && !qubit_in_use(c, qubit_id) {
            remapped_circuit(c, renumbered_views(c.qubits.remove(qubit_id as int)), shifted_down(qubit_id))
        } else {
            c
        },
        EditOperation::ReplaceCircuit { old_circuit } => old_circuit@,
    }
}

/// Mapping the qubit indices of a circuit's operations through `f` gives
/// exactly `remapped_circuit`.
proof fn lemma_remapped_is(c: CircuitView, c2: CircuitView, f: spec_fn(usize) -> usize)
    ensures
        ops_remapped(c, c2, f) ==> c2 == remapped_circuit(c, c2.qubits, f),
        ops_remapped(c, remapped_circuit(c, c2.qubits, f), f),
{
    let r = remapped_circuit(c, c2.qubits, f);
    assert forall|i: int| 0 <= i < c.gates.len() implies gate_remapped(c.gates[i], #[trigger] r.gates[i], f) by {}
    if ops_remapped(c, c2, f) {
        assert forall|i: int| 0 <= i < c.gates.len() implies #[trigger] c2.gates[i] == r.gates[i] by {
            assert(gate_remapped(c.gates[i], c2.gates[i], f));
        }
        assert(c2.gates =~= r.gates);
        assert forall|i: int| 0 <= i < c.measurements.len() implies #[trigger] c2.measurements[i] == r.measurements[i] by {}
        assert(c2.measurements =~= r.measurements);
    }
}

/// `reverted` is what undoing gives, and the only thing it can give.
proof fn lemma_reverted_is(op: EditOperation, c: CircuitView, c2: CircuitView)
    ensures
        revert_effect(op, c, reverted(op, c)),
        revert_effect(op, c, c2) ==> c2 == reverted(op, c),
{
    if let EditOperation::RemoveQubit { qubit_id, wire } = op {
        lemma_remapped_is(c, c2, shifted_up(qubit_id));
        lemma_remapped_is(c, reverted(op, c), shifted_up(qubit_id));
    }
}

/// `reapplied` is what applying gives, and the only thing it can give.
proof fn lemma_reapplied_is(op: EditOperation, c: CircuitView, c2: CircuitView)
    ensures
        apply_effect(op, c, reapplied(op, c)),
        apply_effect(op, c, c2) ==> c2 == reapplied(op, c),
{
    if let EditOperation::RemoveQubit { qubit_id, wire } = op {
        lemma_remapped_is(c, c2, shifted_down(qubit_id));
        lemma_remapped_is(c, reapplied(op, c), shifted_down(qubit_id));
    }
}

/// The undo stack, from its last operation down, can be undone step by step
/// from circuit `c`: each operation is the last one applied to the circuit
/// it is undone on, and undoing it gives a valid circuit.
pub open spec fn undo_chain(undo: Seq<EditOperation>, c: CircuitView) -> bool
    decreases undo.len(),
{
    if undo.len() == 0 {
        true
    } else {
        &&& undoable_on(undo.last(), c)
        &&& circuit_valid(reverted(undo.last(), c))
        &&& undo_chain(undo.drop_last(), reverted(undo.last(), c))
    }
}

/// The redo stack, from its last operation down, can be applied again step
/// by step from circuit `c`: each operation is recorded on the circuit it
/// is applied to, and applying it gives a valid circuit.
pub open spec fn redo_chain(redo: Seq<EditOperation>, c: CircuitView) -> bool
    decreases redo.len(),
{
    if redo.len() == 0 {
        true
    } else {
        &&& recorded_on(redo.last(), c)
        &&& circuit_valid(reapplied(redo.last(), c))
        &&& redo_chain(redo.drop_last(), reapplied(redo.last(), c))
    }
}

/// Undo and redo stacks fit the valid circuit `c`: everything on them can
/// be undone, and redone, one step after the other, through valid circuits.
pub open spec fn stacks_fit(undo: Seq<EditOperation>, redo: Seq<EditOperation>, c: CircuitView) -> bool {
    circuit_valid(c) && undo_chain(undo, c) && redo_chain(redo, c)
}

/// Forgetting the oldest operation keeps the rest undoable.
proof fn lemma_undo_chain_drop_first(undo: Seq<EditOperation>, c: CircuitView)
    requires
        undo_chain(undo, c),
        undo.len() > 0,
    ensures
        undo_chain(undo.drop_first(), c),
    decreases undo.len(),
{
    if undo.len() > 1 {
        let rest = undo.drop_first();
        assert(rest.last() == undo.last());
        assert(rest.drop_last() =~= undo.drop_last().drop_first());
        lemma_undo_chain_drop_first(undo.drop_last(), reverted(undo.last(), c));
    } else {
        assert(undo.drop_first().len() == 0);
    }
}

/// Recording an edit keeps the stacks fitting: when they fit the circuit an
/// operation other than a replacement was recorded on, and the circuit it
/// gave is valid, the undo stack with it pushed, and an empty redo stack,
/// fit that circuit.
pub proof fn lemma_record_keeps_fit(undo: Seq<EditOperation>, redo: Seq<EditOperation>, op: EditOperation, c0: Circuit, c1: CircuitView)
    requires
        stacks_fit(undo, redo, c0@),
        !(op is ReplaceCircuit),
        recorded_on(op, c0@),
        apply_effect(op, c0@, c1),
        circuit_valid(c1),
    ensures
        stacks_fit(pushed(undo, op), Seq::<EditOperation>::empty(), c1),
{
    let s = undo.push(op);
    assert(swapped(op, c0) == op);
    lemma_applied_undoable(op, c0, c1);
    lemma_reverted_is(op, c1, c1);
    lemma_undo_after_apply(op, c0, c1, reverted(op, c1));
    assert(s.last() == op);
    assert(s.drop_last() =~= undo);
    assert(undo_chain(s, c1));
    if undo.len() + 1 > MAX_HISTORY {
        lemma_undo_chain_drop_first(s, c1);
    }
}

/// Replacing the circuit keeps the stacks fitting: when they fit the
/// replaced circuit, the undo stack with the replacement pushed, and an
/// empty redo stack, fit whatever valid circuit took its place.
pub proof fn lemma_replace_keeps_fit(undo: Seq<EditOperation>, redo: Seq<EditOperation>, old_circuit: Circuit, c1: CircuitView)
    requires
        stacks_fit(undo, redo, old_circuit@),
        circuit_valid(c1),
    ensures
        stacks_fit(pushed(undo, EditOperation::ReplaceCircuit { old_circuit }), Seq::<EditOperation>::empty(), c1),
{
    let op = EditOperation::ReplaceCircuit { old_circuit };
    let s = undo.push(op);
    assert(s.last() == op);
    assert(s.drop_last() =~= undo);
    assert(undo_chain(s, c1));
    if undo.len() + 1 > MAX_HISTORY {
        lemma_undo_chain_drop_first(s, c1);
    }
}

/// Undo on stacks that fit the circuit can proceed, and the stacks it
/// leaves fit the circuit it gives.
pub proof fn lemma_undo_keeps_fit(undo: Seq<EditOperation>, redo: Seq<EditOperation>, c1: Circuit, c2: CircuitView)
    requires
        stacks_fit(undo, redo, c1@),
        undo.len() > 0,
    ensures
        can_revert(undo.last(), c1@),
        revert_effect(undo.last(), c1@, c2) ==> stacks_fit(undo.drop_last(), redo.push(swapped(undo.last(), c1)), c2),
{
    let op = undo.last();
    let b = c1@;
    if let EditOperation::RemoveQubit { qubit_id, .. } = op {
        assert forall|i: int, k: int| 0 <= i < b.gates.len() && 0 <= k < b.gates[i].targets.len()
            implies (#[trigger] b.gates[i].targets[k]) < usize::MAX by {}
        assert forall|i: int, k: int| 0 <= i < b.gates.len() && 0 <= k < b.gates[i].controls.len()
            implies (#[trigger] b.gates[i].controls[k]) < usize::MAX by {}
    }
    if revert_effect(op, b, c2) {
        lemma_reverted_is(op, b, c2);
        let r = redo.push(swapped(op, c1));
        lemma_reverted_recorded(op, c1, c2);
        assert(r.last() == swapped(op, c1));
        assert(r.drop_last() =~= redo);
        lemma_reapplied_is(swapped(op, c1), c2, c2);
        lemma_apply_after_undo(op, c1, c2, reapplied(swapped(op, c1), c2));
        assert(redo_chain(r, c2));
    }
}

/// Redo on stacks that fit the circuit can proceed, and the stacks it
/// leaves fit the circuit it gives.
pub proof fn lemma_redo_keeps_fit(undo: Seq<EditOperation>, redo: Seq<EditOperation>, c1: Circuit, c2: CircuitView)
    requires
        stacks_fit(undo, redo, c1@),
        redo.len() > 0,
    ensures
        can_apply(redo.last(), c1@),
        apply_effect(redo.last(), c1@, c2) ==> stacks_fit(undo.push(swapped(redo.last(), c1)), redo.drop_last(), c2),
{
    let op = redo.last();
    if apply_effect(op, c1@, c2) {
        lemma_reapplied_is(op, c1@, c2);
        let u = undo.push(swapped(op, c1));
        lemma_applied_undoable(op, c1, c2);
        assert(u.last() == swapped(op, c1));
        assert(u.drop_last() =~= undo);
        lemma_reverted_is(swapped(op, c1), c2, c2);
        lemma_undo_after_apply(op, c1, c2, reverted(swapped(op, c1), c2));
        assert(undo_chain(u, c2));
    }
}

/// What `EditHistory::undo` does, from history `h0` and circuit `c0` to
/// `h1` and `c1`, returning `done`.
pub open spec fn undo_step(h0: EditHistory, c0: Circuit, h1: EditHistory, c1: Circuit, done: bool) -> bool {
    &&& done == (h0.undo_ops().len() > 0)
    &&& !done ==> h1.undo_ops() == h0.undo_ops() && h1.redo_ops() == h0.redo_ops() && c1 == c0
    &&& done ==> revert_effect(h0.undo_ops().last(), c0@, c1@)
        && h1.undo_ops() == h0.undo_ops().drop_last()
        && h1.redo_ops() == h0.redo_ops().push(swapped(h0.undo_ops().last(), c0))
}

/// What `EditHistory::redo` does, from history `h0` and circuit `c0` to
/// `h1` and `c1`, returning `done`.
pub open spec fn redo_step(h0: EditHistory, c0: Circuit, h1: EditHistory, c1: Circuit, done: bool) -> bool {
    &&& done == (h0.redo_ops().len() > 0)
    &&& !done ==> h1.undo_ops() == h0.undo_ops() && h1.redo_ops() == h0.redo_ops() && c1 == c0
    &&& done ==> apply_effect(h0.redo_ops().last(), c0@, c1@)
        && h1.redo_ops() == h0.redo_ops().drop_last()
        && h1.undo_ops() == h0.undo_ops().push(swapped(h0.redo_ops().last(), c0))
}

/// Undo right after recording an edit, other than a replacement, that
/// turned circuit `c0` into `c1` gives `c0` back, and the edit can then be
/// redone.
pub proof fn lemma_undo_after_record(
    h0: EditHistory, h1: EditHistory, op: EditOperation, c0: Circuit, c1: Circuit,
    h2: EditHistory, c2: Circuit, done: bool,
)
    requires
        h1.undo_ops() == pushed(h0.undo_ops(), op),
        !(op is ReplaceCircuit),
        recorded_on(op, c0@),
        apply_effect(op, c0@, c1@),
        undo_step(h1, c1, h2, c2, done),
    ensures
        done,
        c2@ == c0@,
        h2.redo_ops().len() > 0,
{
    assert(pushed(h0.undo_ops(), op).last() == op);
    assert(swapped(op, c0) == op);
    lemma_undo_after_apply(op, c0, c1@, c2@);
}

/// Undo right after replacing circuit `c0` gives `c0` back.
pub proof fn lemma_undo_after_replace(
    h0: EditHistory, h1: EditHistory, c0: Circuit, c1: Circuit, h2: EditHistory, c2: Circuit, done: bool,
)
    requires
        h1.undo_ops() == pushed(h0.undo_ops(), EditOperation::ReplaceCircuit { old_circuit: c0 }),
        undo_step(h1, c1, h2, c2, done),
    ensures
        done,
        c2@ == c0@,
        h2.redo_ops().len() > 0,
{
    assert(pushed(h0.undo_ops(), EditOperation::ReplaceCircuit { old_circuit: c0 }).last()
        == EditOperation::ReplaceCircuit { old_circuit: c0 });
}

/// On a history that fits the circuit, redo right after an undo gives back
/// the circuit the undo started from, and undo is possible again.
pub proof fn lemma_redo_after_undo(
    h1: EditHistory, c1: Circuit, h2: EditHistory, c2: Circuit, h3: EditHistory, c3: Circuit, done: bool,
)
    requires
        h1.fits(c1@),
        undo_step(h1, c1, h2, c2, true),
        redo_step(h2, c2, h3, c3, done),
    ensures
        done,
        c3@ == c1@,
        h3.undo_ops().len() > 0,
{
    let op = h1.undo_ops().last();
    assert(h2.redo_ops().last() == swapped(op, c1));
    lemma_apply_after_undo(op, c1, c2@, c3@);
}

/// Bounded undo/redo stacks of circuit edit operations.
pub struct EditHistory {
    undo_stack: Vec<EditOperation>,
    redo_stack: Vec<EditOperation>,
}

impl Default for EditHistory {
    fn default() -> (h: Self)
        ensures
            h.undo_ops() == Seq::<EditOperation>::empty(),
            h.redo_ops() == Seq::<EditOperation>::empty(),
            forall|c: CircuitView| circuit_valid(c) ==> #[trigger] h.fits(c),
    {
        EditHistory { undo_stack: Vec::new(), redo_stack: Vec::new() }
    }
}

/// The undo stack after recording `op` on top of `undo`: the oldest entry
/// is dropped beyond `MAX_HISTORY`.
pub open spec fn pushed(undo: Seq<EditOperation>, op: EditOperation) -> Seq<EditOperation> {
    if undo.len() + 1 > MAX_HISTORY { undo.push(op).drop_first() } else { undo.push(op) }
}

impl EditHistory {
    /// Undo and redo stacks together never hold more than `MAX_HISTORY`
    /// operations: recording trims the undo stack, and undo and redo only
    /// move operations between the two.
    #[verifier::type_invariant]
    closed spec fn within_bound(&self) -> bool {
        self.undo_stack@.len() + self.redo_stack@.len() <= MAX_HISTORY
    }

    /// The operations that can be undone, oldest first.
    pub closed spec fn undo_ops(&self) -> Seq<EditOperation> {
        self.undo_stack@
    }

    /// The operations that can be redone, the next one last.
    pub closed spec fn redo_ops(&self) -> Seq<EditOperation> {
        self.redo_stack@
    }

    /// `c` is valid, and everything on the stacks can be undone, and redone,
    /// step by step from it through valid circuits.
    pub open spec fn fits(&self, c: CircuitView) -> bool {
        stacks_fit(self.undo_ops(), self.redo_ops(), c)
    }

    /// Records a new operation; the redo stack is cleared.
    pub fn push(&mut self, op: EditOperation)
        ensures
            final(self).undo_ops() == pushed(old(self).undo_ops(), op),
            final(self).redo_ops() == Seq::<EditOperation>::empty(),
            final(self).undo_ops().len() <= MAX_HISTORY,
    {
        proof { use_type_invariant(&*self); }
        self.redo_stack = Vec::new();
        let mut undo = Vec::new();
        std::mem::swap(&mut undo, &mut self.undo_stack);
        if undo.len() >= MAX_HISTORY {
            undo.remove(0);
        }
        undo.push(op);
        assert(undo@ =~= pushed(old(self).undo_stack@, op));
        self.undo_stack = undo;
    }

    /// Undoes the most recent operation, moving it to the redo stack.
    /// Returns whether there was one.
    pub fn undo(&mut self, circuit: &mut Circuit) -> (done: bool)
        requires
            old(self).undo_ops().len() > 0 ==> can_revert(old(self).undo_ops().last(), old(circuit)@),
        ensures
            done == (old(self).undo_ops().len() > 0),
            !done ==> final(self).undo_ops() == old(self).undo_ops() && final(self).redo_ops() == old(self).redo_ops()
                && *final(circuit) == *old(circuit),
            done ==> revert_effect(old(self).undo_ops().last(), old(circuit)@, final(circuit)@)
                && final(self).undo_ops() == old(self).undo_ops().drop_last()
                && final(self).redo_ops() == old(self).redo_ops().push(swapped(old(self).undo_ops().last(), *old(circuit))),
            old(self).fits(old(circuit)@) ==> final(self).fits(final(circuit)@),
            undo_step(*old(self), *old(circuit), *final(self), *final(circuit), done),
    {
        proof { use_type_invariant(&*self); }
        let mut undo = Vec::new();
        std::mem::swap(&mut undo, &mut self.undo_stack);
        let mut redo = Vec::new();
        std::mem::swap(&mut redo, &mut self.redo_stack);
        let ghost c0 = *circuit;
        let done = match undo.pop() {
            Some(op) => {
                let mut op = op;
                op.undo(circuit);
                proof {
                    if old(self).fits(c0@) {
                        lemma_undo_keeps_fit(old(self).undo_ops(), old(self).redo_ops(), c0, circuit@);
                    }
                }
                redo.push(op);
                true
            },
            None => false,
        };
        self.undo_stack = undo;
        self.redo_stack = redo;
        done
    }

    /// Applies the most recently undone operation again, moving it back to
    /// the undo stack. Returns whether there was one.
    pub fn redo(&mut self, circuit: &mut Circuit) -> (done: bool)
        requires
            old(self).redo_ops().len() > 0 ==> can_apply(old(self).redo_ops().last(), old(circuit)@),
        ensures
            done == (old(self).redo_ops().len() > 0),
            !done ==> final(self).undo_ops() == old(self).undo_ops() && final(self).redo_ops() == old(self).redo_ops()
                && *final(circuit) == *old(circuit),
            done ==> apply_effect(old(self).redo_ops().last(), old(circuit)@, final(circuit)@)
                && final(self).redo_ops() == old(self).redo_ops().drop_last()
                && final(self).undo_ops() == old(self).undo_ops().push(swapped(old(self).redo_ops().last(), *old(circuit))),
            old(self).fits(old(circuit)@) ==> final(self).fits(final(circuit)@),
            redo_step(*old(self), *old(circuit), *final(self), *final(circuit), done),
    {
        proof { use_type_invariant(&*self); }
        let mut undo = Vec::new();
        std::mem::swap(&mut undo, &mut self.undo_stack);
        let mut redo = Vec::new();
        std::mem::swap(&mut redo, &mut self.redo_stack);
        let ghost c0 = *circuit;
        let done = match redo.pop() {
            Some(op) => {
                let mut op = op;
                op.redo(circuit);
                proof {
                    if old(self).fits(c0@) {
                        lemma_redo_keeps_fit(old(self).undo_ops(), old(self).redo_ops(), c0, circuit@);
                    }
                }
                undo.push(op);
                true
            },
            None => false,
        };
        self.redo_stack = redo;
        self.undo_stack = undo;
        done
    }

    /// Whether there is an operation to undo.
    pub fn can_undo(&self) -> (b: bool)
        ensures
            b == (self.undo_ops().len() > 0),
    {
        self.undo_stack.len() > 0
    }

    /// Whether there is an operation to redo.
    pub fn can_redo(&self) -> (b: bool)
        ensures
            b == (self.redo_ops().len() > 0),
    {
        self.redo_stack.len() > 0
    }

    /// Forgets all operations.
    pub fn clear(&mut self)
        ensures
            final(self).undo_ops() == Seq::<EditOperation>::empty(),
            final(self).redo_ops() == Seq::<EditOperation>::empty(),
            forall|c: CircuitView| circuit_valid(c) ==> #[trigger] final(self).fits(c),
    {
        proof { use_type_invariant(&*self); }
        self.undo_stack = Vec::new();
        self.redo_stack = Vec::new();
    }

    /// Whether the next undo can proceed on `circuit`: nothing is left to
    /// undo, or the positions the last operation names exist in it.
    pub fn undo_fits(&self, circuit: &Circuit) -> (b: bool)
        ensures
            b == (self.undo_ops().len() > 0 ==> can_revert(self.undo_ops().last(), circuit@)),
    {
        let n = self.undo_stack.len();
        if n == 0 {
            return true;
        }
        revert_fits(&self.undo_stack[n - 1], circuit)
    }

    /// Whether the next redo can proceed on `circuit`: nothing is left to
    /// redo, or the positions the next operation names exist in it.
    pub fn redo_fits(&self, circuit: &Circuit) -> (b: bool)
        ensures
            b == (self.redo_ops().len() > 0 ==> can_apply(self.redo_ops().last(), circuit@)),
    {
        let n = self.redo_stack.len();
        if n == 0 {
            return true;
        }
        apply_fits(&self.redo_stack[n - 1], circuit)
    }

    /// Number of operations that can be undone.
    pub fn undo_len(&self) -> (n: usize)
        ensures
            n == self.undo_ops().len(),
            n <= MAX_HISTORY,
    {
        proof { use_type_invariant(self); }
        self.undo_stack.len()
    }
}

/// The undo stack never holds more than `MAX_HISTORY` operations: recording
/// on a stack within the bound stays within it.
pub proof fn lemma_push_bounded(undo: Seq<EditOperation>, op: EditOperation)
    requires
        undo.len() <= MAX_HISTORY,
    ensures
        pushed(undo, op).len() <= MAX_HISTORY,
        pushed(undo, op).last() == op,
{
}

} // verus!
