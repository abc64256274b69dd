//! Circuit data model: qubit wires, placed gates and measurements.
use vstd::prelude::*;
use vstd::string::*;
use crate::gate::{GateType, spec_is_parameterized, spec_num_qubits, spec_num_controls};
use crate::wire::{QubitWire, WireView, default_label};
use crate::text::{decimal, push_decimal};
use crate::order::{is_stable_order, stable_order, stable_order_indices};
use crate::seqs::{first_match, lemma_first_match, lemma_first_match_at, lemma_first_match_none};

verus! {

/// Error type for circuit validation and operations.
#[derive(Debug, Clone, PartialEq)]
pub enum CircuitError {
    /// Gate target qubit index is out of bounds.
    InvalidQubitIndex { index: usize, num_qubits: usize },
    /// Control qubit index is out of bounds.
    InvalidControlIndex { index: usize, num_qubits: usize },
    /// Gate target and control qubits overlap.
    OverlappingTargetsAndControls,
    /// Gate column is invalid.
    InvalidColumn { column: usize },
    /// Number of targets doesn't match its gate type.
    InvalidTargetCount { expected: usize, actual: usize },
    /// Number of controls doesn't match its gate type.
    InvalidControlCount { expected: usize, actual: usize },
    /// Missing parameters for a parameterized gate.
    MissingParameters { gate: GateType },
    /// Cannot remove a qubit that gates or measurements use.
    QubitInUse { qubit_id: usize },
    /// Invalid reordering permutation.
    InvalidPermutation { message: String },
    /// Generic error with message.
    Message(String),
}

/// A gate placed at a specific position in the circuit.
#[derive(Debug, Clone, PartialEq)]
pub struct PlacedGate {
    /// The type of gate.
    pub gate: GateType,
    /// Target qubits.
    pub target_qubits: Vec<usize>,
    /// Control qubits.
    pub control_qubits: Vec<usize>,
    /// Time step position (left-to-right).
    pub column: usize,
    /// Stored parameters (angle bits), kept for the file format.
    pub parameters: Vec<u64>,
}

/// Mathematical model of a placed gate.
pub struct PlacedGateView {
    pub gate: GateType,
    pub targets: Seq<usize>,
    pub controls: Seq<usize>,
    pub column: usize,
    pub parameters: Seq<u64>,
}

impl View for PlacedGate {
    type V = PlacedGateView;

    open spec fn view(&self) -> PlacedGateView {
        PlacedGateView {
            gate: self.gate,
            targets: self.target_qubits@,
            controls: self.control_qubits@,
            column: self.column,
            parameters: self.parameters@,
        }
    }
}

/// A measurement operation on a qubit.
#[derive(Debug, Clone, Copy, PartialEq, Eq, Structural)]
pub struct Measurement {
    /// Which qubit is measured.
    pub qubit_id: usize,
    /// Time step position.
    pub column: usize,
}

/// A quantum circuit with qubit wires, placed gates and measurements.
#[derive(Debug, Clone, PartialEq)]
pub struct Circuit {
    /// Named qubit wires.
    pub qubits: Vec<QubitWire>,
    /// Gates positioned on the circuit.
    pub gates: Vec<PlacedGate>,
    /// Measurements applied to qubits.
    pub measurements: Vec<Measurement>,
}

/// Mathematical model of a circuit.
pub struct CircuitView {
    pub qubits: Seq<WireView>,
    pub gates: Seq<PlacedGateView>,
    pub measurements: Seq<Measurement>,
}

impl View for Circuit {
    type V = CircuitView;

    open spec fn view(&self) -> CircuitView {
        CircuitView {
            qubits: wire_views(self.qubits@),
            gates: self.gates@.map_values(|g: PlacedGate| g@),
            measurements: self.measurements@,
        }
    }
}

/// All qubits a gate involves: controls first, then targets.
pub open spec fn all_qubits_of(g: PlacedGateView) -> Seq<usize> {
    g.controls + g.targets
}

/// Whether a gate touches qubit `q` as a target or a control.
pub open spec fn gate_uses(g: PlacedGateView, q: usize) -> bool {
    g.targets.contains(q) || g.controls.contains(q)
}

/// Whether any gate or measurement of the circuit uses qubit `q`.
pub open spec fn qubit_in_use(c: CircuitView, q: usize) -> bool {
    (exists|i: int| 0 <= i < c.gates.len() && gate_uses(#[trigger] c.gates[i], q))
    || (exists|i: int| 0 <= i < c.measurements.len() && (#[trigger] c.measurements[i]).qubit_id == q)
}

/// Wires renumbered so that each wire's id is its position.
pub open spec fn renumbered(ws: Seq<QubitWire>) -> Seq<QubitWire> {
    Seq::new(ws.len(), |k: int| QubitWire { id: k as usize, label: ws[k].label })
}

/// The models of a list of wires.
pub open spec fn wire_views(ws: Seq<QubitWire>) -> Seq<WireView> {
    ws.map_values(|w: QubitWire| w@)
}

/// Wire models renumbered so that each id is its position.
pub open spec fn renumbered_views(ws: Seq<WireView>) -> Seq<WireView> {
    Seq::new(ws.len(), |k: int| WireView { id: k as usize, label: ws[k].label })
}

/// Renumbering wires renumbers their models.
proof fn lemma_wire_views_renumbered(ws: Seq<QubitWire>)
    ensures
        wire_views(renumbered(ws)) == renumbered_views(wire_views(ws)),
{
    assert(wire_views(renumbered(ws)) =~= renumbered_views(wire_views(ws)));
}

/// The models of wires follow an insertion, a removal or a push.
pub(crate) proof fn lemma_wire_views_edits(ws: Seq<QubitWire>, i: int, w: QubitWire)
    ensures
        0 <= i <= ws.len() ==> wire_views(ws.insert(i, w)) == wire_views(ws).insert(i, w@),
        0 <= i < ws.len() ==> wire_views(ws.remove(i)) == wire_views(ws).remove(i),
        wire_views(ws.push(w)) == wire_views(ws).push(w@),
        ws.len() > 0 ==> wire_views(ws.drop_last()) == wire_views(ws).drop_last(),
{
    if 0 <= i <= ws.len() {
        assert(wire_views(ws.insert(i, w)) =~= wire_views(ws).insert(i, w@));
    }
    if 0 <= i < ws.len() {
        assert(wire_views(ws.remove(i)) =~= wire_views(ws).remove(i));
    }
    assert(wire_views(ws.push(w)) =~= wire_views(ws).push(w@));
    if ws.len() > 0 {
        assert(wire_views(ws.drop_last()) =~= wire_views(ws).drop_last());
    }
}

/// The wire list a fresh circuit of `n` qubits has, stated per wire.
pub open spec fn has_default_wires(ws: Seq<WireView>, n: nat) -> bool {
    &&& ws.len() == n
    &&& forall|k: int| 0 <= k < n ==> (#[trigger] ws[k]).id == k && ws[k].label == default_label(k as nat)
}

/// Index of qubit `idx` after qubit `q` has been removed.
pub open spec fn shift_down(q: usize, idx: usize) -> usize {
    if idx > q { (idx - 1) as usize } else { idx }
}

/// Index of qubit `idx` after a qubit has been inserted back at `q`.
pub open spec fn shift_up(q: usize, idx: usize) -> usize {
    if idx >= q { (idx + 1) as usize } else { idx }
}

/// `later` is `earlier` with only its qubit indices mapped through `f`.
pub open spec fn gate_remapped(earlier: PlacedGateView, later: PlacedGateView, f: spec_fn(usize) -> usize) -> bool {
    &&& later.gate == earlier.gate
    &&& later.column == earlier.column
    &&& later.parameters == earlier.parameters
    &&& later.targets == earlier.targets.map_values(f)
    &&& later.controls == earlier.controls.map_values(f)
}

/// Every gate and measurement of `later` is that of `earlier` with indices mapped by `f`.
pub open spec fn ops_remapped(earlier: CircuitView, later: CircuitView, f: spec_fn(usize) -> usize) -> bool {
    &&& later.gates.len() == earlier.gates.len()
    &&& forall|i: int| 0 <= i < earlier.gates.len() ==> gate_remapped(earlier.gates[i], #[trigger] later.gates[i], f)
    &&& later.measurements.len() == earlier.measurements.len()
    &&& forall|i: int| 0 <= i < earlier.measurements.len() ==>
        (#[trigger] later.measurements[i]).qubit_id == f(earlier.measurements[i].qubit_id)
        && later.measurements[i].column == earlier.measurements[i].column
}

/// Position of the first index not below `n`.
pub open spec fn first_out_of_range(s: Seq<usize>, n: nat) -> Option<int> {
    first_match(s, at_least(n))
}

/// Being at least `n`, as a predicate.
pub open spec fn at_least(n: nat) -> spec_fn(usize) -> bool {
    |x: usize| x >= n
}

/// Position of the first target that is also a control.
pub open spec fn first_overlap(targets: Seq<usize>, controls: Seq<usize>) -> Option<int> {
    first_match(targets, is_one_of(controls))
}

/// Membership in `s`, as a predicate.
pub open spec fn is_one_of(s: Seq<usize>) -> spec_fn(usize) -> bool {
    |t: usize| s.contains(t)
}

/// What validating a gate placement against `n` qubits gives.
pub open spec fn validate_result(gate: GateType, targets: Seq<usize>, controls: Seq<usize>, n: usize) -> Result<(), CircuitError> {
    match first_out_of_range(targets, n as nat) {
        Some(i) => Err(CircuitError::InvalidQubitIndex { index: targets[i], num_qubits: n }),
        None => match first_out_of_range(controls, n as nat) {
            Some(i) => Err(CircuitError::InvalidControlIndex { index: controls[i], num_qubits: n }),
            None => if first_overlap(targets, controls) is Some {
                Err(CircuitError::OverlappingTargetsAndControls)
            } else if targets.len() != spec_num_qubits(gate) - spec_num_controls(gate) {
                Err(CircuitError::InvalidTargetCount {
                    expected: (spec_num_qubits(gate) - spec_num_controls(gate)) as usize,
                    actual: targets.len() as usize,
                })
            } else if controls.len() != spec_num_controls(gate) {
                Err(CircuitError::InvalidControlCount {
                    expected: spec_num_controls(gate) as usize,
                    actual: controls.len() as usize,
                })
            } else {
                Ok(())
            },
        },
    }
}

/// A placement of `gate` on `targets` and `controls` that validation
/// against `n` wires accepts: every qubit exists, no target is also a
/// control, and the counts are those its type needs.
pub open spec fn placement_ok(gate: GateType, targets: Seq<usize>, controls: Seq<usize>, n: nat) -> bool {
    &&& forall|k: int| 0 <= k < targets.len() ==> #[trigger] targets[k] < n
    &&& forall|k: int| 0 <= k < controls.len() ==> #[trigger] controls[k] < n
    &&& forall|k: int| 0 <= k < targets.len() ==> !controls.contains(#[trigger] targets[k])
    &&& targets.len() == spec_num_qubits(gate) - spec_num_controls(gate)
    &&& controls.len() == spec_num_controls(gate)
}

/// A circuit as its operations keep it: wires numbered by position, every
/// gate a placement that validation accepts, every measurement on an
/// existing wire.
pub open spec fn circuit_valid(c: CircuitView) -> bool {
    &&& forall|k: int| 0 <= k < c.qubits.len() ==> (#[trigger] c.qubits[k]).id == k
    &&& forall|i: int| 0 <= i < c.gates.len() ==>
        placement_ok((#[trigger] c.gates[i]).gate, c.gates[i].targets, c.gates[i].controls, c.qubits.len())
    &&& forall|i: int| 0 <= i < c.measurements.len() ==> (#[trigger] c.measurements[i]).qubit_id < c.qubits.len()
}

/// Validation accepts exactly the placements of `placement_ok`.
pub proof fn lemma_validate_ok(gate: GateType, targets: Seq<usize>, controls: Seq<usize>, n: usize)
    ensures
        (validate_result(gate, targets, controls, n) is Ok) == placement_ok(gate, targets, controls, n as nat),
{
    lemma_first_match(targets, at_least(n as nat));
    lemma_first_match(controls, at_least(n as nat));
    lemma_first_match(targets, is_one_of(controls));
    if placement_ok(gate, targets, controls, n as nat) {
        if let Some(i) = first_out_of_range(targets, n as nat) {
            assert(targets[i] < n);
        }
        if let Some(i) = first_out_of_range(controls, n as nat) {
            assert(controls[i] < n);
        }
        if let Some(i) = first_overlap(targets, controls) {
            assert(!controls.contains(targets[i]));
        }
    }
    if validate_result(gate, targets, controls, n) is Ok {
        assert forall|k: int| 0 <= k < targets.len() implies #[trigger] targets[k] < n by {
            assert(!at_least(n as nat)(targets[k]));
        }
        assert forall|k: int| 0 <= k < controls.len() implies #[trigger] controls[k] < n by {
            assert(!at_least(n as nat)(controls[k]));
        }
        assert forall|k: int| 0 <= k < targets.len() implies !controls.contains(#[trigger] targets[k]) by {
            assert(!is_one_of(controls)(targets[k]));
        }
    }
}

/// A placement that fits `n` wires fits more.
proof fn lemma_placement_more_wires(gate: GateType, targets: Seq<usize>, controls: Seq<usize>, n: nat, m: nat)
    requires
        placement_ok(gate, targets, controls, n),
        n <= m,
    ensures
        placement_ok(gate, targets, controls, m),
{
}

/// In a valid circuit every qubit index in use names an existing wire.
pub proof fn lemma_valid_indices(c: CircuitView)
    requires
        circuit_valid(c),
    ensures
        indices_below(c, c.qubits.len()),
{
    assert forall|i: int, k: int| 0 <= i < c.gates.len() && 0 <= k < c.gates[i].targets.len()
        implies (#[trigger] c.gates[i].targets[k]) < c.qubits.len() by {
        assert(placement_ok(c.gates[i].gate, c.gates[i].targets, c.gates[i].controls, c.qubits.len()));
    }
    assert forall|i: int, k: int| 0 <= i < c.gates.len() && 0 <= k < c.gates[i].controls.len()
        implies (#[trigger] c.gates[i].controls[k]) < c.qubits.len() by {
        assert(placement_ok(c.gates[i].gate, c.gates[i].targets, c.gates[i].controls, c.qubits.len()));
    }
}

/// Validity carries over to a circuit with the same gates and measurements
/// and at least as many wires, numbered by position.
proof fn lemma_valid_more_wires(c0: CircuitView, c1: CircuitView)
    requires
        circuit_valid(c0),
        c1.gates == c0.gates,
        c1.measurements == c0.measurements,
        c0.qubits.len() <= c1.qubits.len(),
        forall|k: int| 0 <= k < c1.qubits.len() ==> (#[trigger] c1.qubits[k]).id == k,
    ensures
        circuit_valid(c1),
{
    assert forall|i: int| 0 <= i < c1.gates.len() implies
        placement_ok((#[trigger] c1.gates[i]).gate, c1.gates[i].targets, c1.gates[i].controls, c1.qubits.len()) by {
        assert(c1.gates[i] == c0.gates[i]);
        lemma_placement_more_wires(c0.gates[i].gate, c0.gates[i].targets, c0.gates[i].controls, c0.qubits.len(), c1.qubits.len());
    }
}

/// Validity carries over when every gate and measurement of the new circuit
/// is one of the old circuit's, or a given valid one, over the same wires.
proof fn lemma_valid_same_wires(c0: CircuitView, c1: CircuitView)
    requires
        circuit_valid(c0),
        c1.qubits == c0.qubits,
        forall|i: int| 0 <= i < c1.gates.len() ==> c0.gates.contains(#[trigger] c1.gates[i])
            || placement_ok(c1.gates[i].gate, c1.gates[i].targets, c1.gates[i].controls, c1.qubits.len()),
        forall|i: int| 0 <= i < c1.measurements.len() ==> c0.measurements.contains(#[trigger] c1.measurements[i])
            || c1.measurements[i].qubit_id < c1.qubits.len(),
    ensures
        circuit_valid(c1),
{
    assert forall|i: int| 0 <= i < c1.gates.len() implies
        placement_ok((#[trigger] c1.gates[i]).gate, c1.gates[i].targets, c1.gates[i].controls, c1.qubits.len()) by {
        if c0.gates.contains(c1.gates[i]) {
            let j = choose|j: int| 0 <= j < c0.gates.len() && c0.gates[j] == c1.gates[i];
            assert(placement_ok(c0.gates[j].gate, c0.gates[j].targets, c0.gates[j].controls, c0.qubits.len()));
        }
    }
    assert forall|i: int| 0 <= i < c1.measurements.len() implies (#[trigger] c1.measurements[i]).qubit_id < c1.qubits.len() by {
        if c0.measurements.contains(c1.measurements[i]) {
            let j = choose|j: int| 0 <= j < c0.measurements.len() && c0.measurements[j] == c1.measurements[i];
            assert(c0.measurements[j].qubit_id < c0.qubits.len());
        }
    }
}

/// Validity carries over when every qubit index is mapped through `f`, onto
/// `n1` wires numbered by position, provided the indices in use all pass
/// `ok`, and `f` keeps indices that pass `ok` apart and below `n1`.
proof fn lemma_valid_remapped(c0: CircuitView, c1: CircuitView, f: spec_fn(usize) -> usize, ok: spec_fn(usize) -> bool)
    requires
        circuit_valid(c0),
        ops_remapped(c0, c1, f),
        forall|k: int| 0 <= k < c1.qubits.len() ==> (#[trigger] c1.qubits[k]).id == k,
        forall|x: usize| #[trigger] ok(x) ==> f(x) < c1.qubits.len(),
        forall|x: usize, y: usize| #[trigger] ok(x) && #[trigger] ok(y) && x != y ==> f(x) != f(y),
        forall|i: int, k: int| 0 <= i < c0.gates.len() && 0 <= k < c0.gates[i].targets.len() ==> ok(#[trigger] c0.gates[i].targets[k]),
        forall|i: int, k: int| 0 <= i < c0.gates.len() && 0 <= k < c0.gates[i].controls.len() ==> ok(#[trigger] c0.gates[i].controls[k]),
        forall|i: int| 0 <= i < c0.measurements.len() ==> ok((#[trigger] c0.measurements[i]).qubit_id),
    ensures
        circuit_valid(c1),
{
    let n1 = c1.qubits.len();
    assert forall|i: int| 0 <= i < c1.gates.len() implies
        placement_ok((#[trigger] c1.gates[i]).gate, c1.gates[i].targets, c1.gates[i].controls, n1) by {
        let g0 = c0.gates[i];
        let g1 = c1.gates[i];
        assert(gate_remapped(g0, g1, f));
        assert(placement_ok(g0.gate, g0.targets, g0.controls, c0.qubits.len()));
        assert forall|k: int| 0 <= k < g1.targets.len() implies #[trigger] g1.targets[k] < n1 by {
            assert(ok(g0.targets[k]));
        }
        assert forall|k: int| 0 <= k < g1.controls.len() implies #[trigger] g1.controls[k] < n1 by {
            assert(ok(g0.controls[k]));
        }
        assert forall|k: int| 0 <= k < g1.targets.len() implies !g1.controls.contains(#[trigger] g1.targets[k]) by {
            if g1.controls.contains(g1.targets[k]) {
                let j = choose|j: int| 0 <= j < g1.controls.len() && g1.controls[j] == g1.targets[k];
                assert(ok(g0.controls[j]) && ok(g0.targets[k]));
                assert(g0.controls[j] == g0.targets[k]);
                assert(g0.controls.contains(g0.targets[k]));
            }
        }
    }
    assert forall|i: int| 0 <= i < c1.measurements.len() implies (#[trigger] c1.measurements[i]).qubit_id < n1 by {
        assert(ok(c0.measurements[i].qubit_id));
    }
}

/// The error text for updating a gate that is not a rotation.
pub open spec fn only_rotations_message() -> Seq<char> {
    "Only parameterized gates (Rx, Ry, Rz) can be updated"@
}

/// `m` is the largest column used (0 when nothing is placed).
pub open spec fn is_max_column(c: CircuitView, m: usize) -> bool {
    &&& (forall|i: int| 0 <= i < c.gates.len() ==> (#[trigger] c.gates[i]).column <= m)
    &&& (forall|i: int| 0 <= i < c.measurements.len() ==> (#[trigger] c.measurements[i]).column <= m)
    &&& (m == 0
        || (exists|i: int| 0 <= i < c.gates.len() && (#[trigger] c.gates[i]).column == m)
        || (exists|i: int| 0 <= i < c.measurements.len() && (#[trigger] c.measurements[i]).column == m))
}

/// Index of the first measurement at (`column`, `qubit`).
pub open spec fn first_measurement_at(ms: Seq<Measurement>, column: usize, qubit: usize) -> Option<int> {
    first_match(ms, |m: Measurement| m.column == column && m.qubit_id == qubit)
}

/// Index of the first gate at `column` that involves `qubit`.
pub open spec fn first_gate_at(gs: Seq<PlacedGateView>, column: usize, qubit: usize) -> Option<int> {
    first_match(gs, |g: PlacedGateView| g.column == column && all_qubits_of(g).contains(qubit))
}



/// `shift_down(q, _)` as a function.
pub open spec fn shifted_down(q: usize) -> spec_fn(usize) -> usize {
    |x: usize| shift_down(q, x)
}

/// `shift_up(q, _)` as a function.
pub open spec fn shifted_up(q: usize) -> spec_fn(usize) -> usize {
    |x: usize| shift_up(q, x)
}

/// New position of old qubit `x` under a reordering: where `x` occurs in `perm`.
pub open spec fn new_position(perm: Seq<usize>) -> spec_fn(usize) -> usize {
    |x: usize| perm.index_of(x) as usize
}

/// Every qubit index that a gate or measurement uses is below `n`.
pub open spec fn indices_below(c: CircuitView, n: nat) -> bool {
    &&& forall|i: int, k: int| 0 <= i < c.gates.len() && 0 <= k < c.gates[i].targets.len() ==> (#[trigger] c.gates[i].targets[k]) < n
    &&& forall|i: int, k: int| 0 <= i < c.gates.len() && 0 <= k < c.gates[i].controls.len() ==> (#[trigger] c.gates[i].controls[k]) < n
    &&& forall|i: int| 0 <= i < c.measurements.len() ==> (#[trigger] c.measurements[i]).qubit_id < n
}

/// Position `i` of a permutation is out of range or repeats an earlier entry.
pub open spec fn perm_problem(p: Seq<usize>, n: nat, i: int) -> bool {
    p[i] >= n || p.take(i).contains(p[i])
}

/// First position of `p` that is out of range or repeated.
pub open spec fn first_perm_problem(p: Seq<usize>, n: nat) -> Option<int> {
    first_match(Seq::new(p.len(), |i: int| i), |i: int| perm_problem(p, n, i))
}

/// `p` lists each of `0..n` exactly once.
pub open spec fn is_permutation(p: Seq<usize>, n: nat) -> bool {
    p.len() == n && first_perm_problem(p, n) is None
}

/// Message for a permutation of the wrong length.
pub open spec fn perm_length_message(n: nat, len: nat) -> Seq<char> {
    "Expected "@ + decimal(n) + " indices, got "@ + decimal(len)
}

/// Message for the problem at position `i` of a permutation.
pub open spec fn perm_problem_message(p: Seq<usize>, n: nat, i: int) -> Seq<char> {
    if p[i] >= n {
        "Index "@ + decimal(p[i] as nat) + " out of bounds (max: "@ + decimal((n - 1) as nat) + ")"@
    } else {
        "Index "@ + decimal(p[i] as nat) + " appears multiple times"@
    }
}

/// Number of `true` entries.
pub open spec fn count_true(s: Seq<bool>) -> nat
    decreases s.len(),
{
    if s.len() == 0 { 0 } else { count_true(s.drop_last()) + if s.last() { 1nat } else { 0nat } }
}

proof fn lemma_count_true_bound(s: Seq<bool>)
    ensures
        count_true(s) <= s.len(),
        count_true(s) == s.len() ==> forall|j: int| 0 <= j < s.len() ==> s[j],
    decreases s.len(),
{
    if s.len() > 0 {
        lemma_count_true_bound(s.drop_last());
        assert forall|j: int| 0 <= j < s.len() - 1 implies s.drop_last()[j] == s[j] by {}
    }
}

proof fn lemma_count_true_set(s: Seq<bool>, j: int)
    requires
        0 <= j < s.len(),
        !s[j],
    ensures
        count_true(s.update(j, true)) == count_true(s) + 1,
    decreases s.len(),
{
    if j == s.len() - 1 {
        assert(s.update(j, true).drop_last() == s.drop_last());
    } else {
        lemma_count_true_set(s.drop_last(), j);
        assert(s.update(j, true).drop_last() == s.drop_last().update(j, true));
    }
}

proof fn lemma_count_true_all_false(n: nat)
    ensures
        count_true(Seq::new(n, |i: int| false)) == 0,
    decreases n,
{
    if n > 0 {
        lemma_count_true_all_false((n - 1) as nat);
        assert(Seq::new(n, |i: int| false).drop_last() == Seq::new((n - 1) as nat, |i: int| false));
    }
}


/// Wires listed in the order `perm` gives, renumbered.
pub open spec fn reordered(ws: Seq<QubitWire>, perm: Seq<usize>) -> Seq<QubitWire> {
    Seq::new(perm.len(), |k: int| QubitWire { id: k as usize, label: ws[perm[k] as int].label })
}

/// Which of `0..n` occur among the first `k` entries of `p`.
pub open spec fn seen_among(p: Seq<usize>, n: nat, k: int) -> Seq<bool> {
    Seq::new(n, |x: int| p.take(k).contains(x as usize))
}

proof fn lemma_no_problem<A>(p: Seq<usize>, n: nat)
    requires
        first_perm_problem(p, n) is None,
    ensures
        forall|i: int| 0 <= i < p.len() ==> !perm_problem(p, n, i),
{
    let idx = Seq::new(p.len(), |i: int| i);
    let pred = |i: int| perm_problem(p, n, i);
    lemma_first_match(idx, pred);
    assert forall|i: int| 0 <= i < p.len() implies !perm_problem(p, n, i) by {
        assert(!pred(idx[i]));
    }
}

/// `p` has `n` distinct entries, all below `n`.
pub open spec fn distinct_below(p: Seq<usize>, n: nat) -> bool {
    &&& p.len() == n
    &&& forall|i: int| 0 <= i < p.len() ==> (#[trigger] p[i]) < n
    &&& forall|i: int, j: int| 0 <= i < j < p.len() ==> p[i] != p[j]
}

proof fn lemma_seen_count(p: Seq<usize>, n: nat, k: int)
    requires
        0 <= k <= n,
        n <= usize::MAX,
        distinct_below(p, n),
    ensures
        count_true(seen_among(p, n, k)) == k,
    decreases k,
{
    if k == 0 {
        lemma_count_true_all_false(n);
        assert(seen_among(p, n, 0) =~= Seq::new(n, |i: int| false));
    } else {
        let j = k - 1;
        lemma_seen_count(p, n, j);
        assert(!p.take(j).contains(p[j])) by {
            if p.take(j).contains(p[j]) {
                let w = choose|w: int| 0 <= w < p.take(j).len() && #[trigger] p.take(j)[w] == p[j];
                assert(p[w] == p[j]);
            }
        }
        assert(seen_among(p, n, k) =~= seen_among(p, n, j).update(p[j] as int, true)) by {
            assert forall|x: int| 0 <= x < n implies #[trigger] seen_among(p, n, k)[x] == seen_among(p, n, j).update(p[j] as int, true)[x] by {
                vstd::seq_lib::lemma_seq_contains_after_push(p.take(j), p[j], x as usize);
                assert(p.take(k) == p.take(j).push(p[j]));
                if x == p[j] as int {
                    assert(seen_among(p, n, j).update(p[j] as int, true)[x]);
                } else {
                    assert(seen_among(p, n, j).update(p[j] as int, true)[x] == seen_among(p, n, j)[x]);
                }
            }
        }
        lemma_count_true_set(seen_among(p, n, j), p[j] as int);
    }
}

/// `n` distinct entries below `n` mention every one of `0..n`.
pub proof fn lemma_distinct_covers(p: Seq<usize>, n: nat)
    requires
        distinct_below(p, n),
        n <= usize::MAX,
    ensures
        forall|x: usize| x < n ==> p.contains(x),
{
    lemma_seen_count(p, n, n as int);
    lemma_count_true_bound(seen_among(p, n, n as int));
    assert(p.take(n as int) == p);
    assert forall|x: usize| x < n implies p.contains(x) by {
        assert(seen_among(p, n, n as int)[x as int]);
    }
}

/// A permutation of `0..n` mentions every one of `0..n`, each at one position.
pub proof fn lemma_permutation_covers(p: Seq<usize>, n: nat)
    requires
        is_permutation(p, n),
        n <= usize::MAX,
    ensures
        forall|x: usize| x < n ==> p.contains(x),
        forall|i: int, j: int| 0 <= i < p.len() && 0 <= j < p.len() && i != j ==> p[i] != p[j],
        forall|i: int| 0 <= i < p.len() ==> p.index_of(#[trigger] p[i]) == i,
        forall|i: int| 0 <= i < p.len() ==> #[trigger] p[i] < n,
{
    lemma_no_problem::<usize>(p, n);
    assert forall|i: int, j: int| 0 <= i < p.len() && 0 <= j < p.len() && i != j implies p[i] != p[j] by {
        if i < j {
            assert(!perm_problem(p, n, j));
            assert(p.take(j)[i] == p[i]);
        } else {
            assert(!perm_problem(p, n, i));
            assert(p.take(i)[j] == p[j]);
        }
    }
    assert forall|i: int| 0 <= i < p.len() implies (#[trigger] p[i]) < n by {
        assert(!perm_problem(p, n, i));
    }
    lemma_distinct_covers(p, n);
    assert forall|i: int| 0 <= i < p.len() implies p.index_of(#[trigger] p[i]) == i by {
        assert(p.contains(p[i]));
    }
}


/// Reordering the wires of a circuit by `p` and then by its inverse `q`
/// gives the circuit back, when its wires are numbered by position and
/// every qubit index in use names a wire.
pub proof fn lemma_reorder_inverse(c0: Circuit, c1: Circuit, c2: Circuit, p: Seq<usize>, q: Seq<usize>)
    requires
        forall|k: int| 0 <= k < c0.qubits@.len() ==> (#[trigger] c0.qubits@[k]).id == k,
        indices_below(c0@, c0.qubits@.len()),
        is_permutation(p, c0.qubits@.len()),
        is_permutation(q, c0.qubits@.len()),
        forall|i: int| 0 <= i < p.len() ==> q[#[trigger] p[i] as int] == i,
        c1.qubits@ == reordered(c0.qubits@, p),
        ops_remapped(c0@, c1@, new_position(p)),
        c2.qubits@ == reordered(c1.qubits@, q),
        ops_remapped(c1@, c2@, new_position(q)),
    ensures
        c2.qubits@ == c0.qubits@,
        c2@ == c0@,
{
    let n = c0.qubits@.len();
    let ws = c0.qubits@;
    assert(c0.qubits.len() == n);
    lemma_permutation_covers(p, n);
    lemma_permutation_covers(q, n);
    let f = new_position(p);
    let g = new_position(q);
    assert forall|x: usize| x < n implies #[trigger] g(f(x)) == x && f(x) < n by {
        let i = p.index_of(x);
        assert(p.contains(x));
        assert(0 <= i < p.len() && p[i] == x);
        assert(q[p[i] as int] == i);
        assert(q.contains(i as usize));
        let j = q.index_of(i as usize);
        assert(0 <= j < q.len() && q[j] == i);
        assert(q[x as int] == i);
        if j != x {
            assert(q[j] != q[x as int]);
        }
    }
    assert forall|k: int| 0 <= k < n implies #[trigger] p[q[k] as int] == k by {
        let i = q[k] as int;
        assert(q[p[i] as int] == i);
        if p[i] != k {
            assert(q[p[i] as int] != q[k]);
        }
    }
    assert forall|k: int| 0 <= k < n implies #[trigger] c2.qubits@[k] == ws[k] by {
        assert(c2.qubits@[k] == QubitWire { id: k as usize, label: c1.qubits@[q[k] as int].label });
        assert(c1.qubits@[q[k] as int] == QubitWire { id: q[k], label: ws[p[q[k] as int] as int].label });
    }
    assert(c2.qubits@ =~= ws);
    let a = c0@;
    let b = c1@;
    let c = c2@;
    assert forall|i: int| 0 <= i < a.gates.len() implies #[trigger] c.gates[i] == a.gates[i] by {
        assert(gate_remapped(a.gates[i], b.gates[i], f));
        assert(gate_remapped(b.gates[i], c.gates[i], g));
        assert forall|k: int| 0 <= k < a.gates[i].targets.len() implies c.gates[i].targets[k] == a.gates[i].targets[k] by {
            assert(a.gates[i].targets[k] < n);
        }
        assert forall|k: int| 0 <= k < a.gates[i].controls.len() implies c.gates[i].controls[k] == a.gates[i].controls[k] by {
            assert(a.gates[i].controls[k] < n);
        }
        assert(c.gates[i].targets =~= a.gates[i].targets);
        assert(c.gates[i].controls =~= a.gates[i].controls);
    }
    assert(c.gates =~= a.gates);
    assert forall|i: int| 0 <= i < a.measurements.len() implies #[trigger] c.measurements[i] == a.measurements[i] by {
        assert(a.measurements[i].qubit_id < n);
    }
    assert(c.measurements =~= a.measurements);
    assert(c.qubits =~= a.qubits);
}

/// Each gate's column, in insertion order.
pub open spec fn gate_columns(gs: Seq<PlacedGateView>) -> Seq<usize> {
    gs.map_values(|g: PlacedGateView| g.column)
}

/// The text an error is shown with; `gate_text` is how a gate of a
/// `MissingParameters` error is written.
pub open spec fn error_message(e: CircuitError, gate_text: Seq<char>) -> Seq<char> {
    match e {
        CircuitError::InvalidQubitIndex { index, num_qubits } =>
            "Qubit index "@ + decimal(index as nat) + " out of bounds (circuit has "@ + decimal(num_qubits as nat) + " qubits)"@,
        CircuitError::InvalidControlIndex { index, num_qubits } =>
            "Control qubit index "@ + decimal(index as nat) + " out of bounds (circuit has "@ + decimal(num_qubits as nat) + " qubits)"@,
        CircuitError::OverlappingTargetsAndControls => "Gate target and control qubits overlap"@,
        CircuitError::InvalidColumn { column } => "Invalid column position: "@ + decimal(column as nat),
        CircuitError::InvalidTargetCount { expected, actual } =>
            "Expected "@ + decimal(expected as nat) + " target qubits, got "@ + decimal(actual as nat),
        CircuitError::InvalidControlCount { expected, actual } =>
            "Expected "@ + decimal(expected as nat) + " control qubits, got "@ + decimal(actual as nat),
        CircuitError::MissingParameters { gate } => "Missing parameters for gate: "@ + gate_text,
        CircuitError::QubitInUse { qubit_id } =>
            "Cannot remove qubit "@ + decimal(qubit_id as nat) + ": it has gates targeting it"@,
        CircuitError::InvalidPermutation { message } => "Invalid permutation: "@ + message@,
        CircuitError::Message(msg) => msg@,
    }
}

impl CircuitError {
    /// The error as text. `gate_text` is how a gate of a `MissingParameters`
    /// error is written (its debug rendering); other variants ignore it.
    pub fn message(&self, gate_text: &str) -> (s: String)
        ensures
            s@ == error_message(*self, gate_text@),
    {
        proof {
            reveal_strlit("Qubit index ");
            reveal_strlit(" out of bounds (circuit has ");
            reveal_strlit(" qubits)");
            reveal_strlit("Control qubit index ");
            reveal_strlit("Gate target and control qubits overlap");
            reveal_strlit("Invalid column position: ");
            reveal_strlit("Expected ");
            reveal_strlit(" target qubits, got ");
            reveal_strlit(" control qubits, got ");
            reveal_strlit("Missing parameters for gate: ");
            reveal_strlit("Cannot remove qubit ");
            reveal_strlit(": it has gates targeting it");
            reveal_strlit("Invalid permutation: ");
        }
        match self {
            CircuitError::InvalidQubitIndex { index, num_qubits } => {
                let mut s = String::from_str("Qubit index ");
                push_decimal(&mut s, *index);
                s.append(" out of bounds (circuit has ");
                push_decimal(&mut s, *num_qubits);
                s.append(" qubits)");
                s
            },
            CircuitError::InvalidControlIndex { index, num_qubits } => {
                let mut s = String::from_str("Control qubit index ");
                push_decimal(&mut s, *index);
                s.append(" out of bounds (circuit has ");
                push_decimal(&mut s, *num_qubits);
                s.append(" qubits)");
                s
            },
            CircuitError::OverlappingTargetsAndControls => String::from_str("Gate target and control qubits overlap"),
            CircuitError::InvalidColumn { column } => {
                let mut s = String::from_str("Invalid column position: ");
                push_decimal(&mut s, *column);
                s
            },
            CircuitError::InvalidTargetCount { expected, actual } => {
                let mut s = String::from_str("Expected ");
                push_decimal(&mut s, *expected);
                s.append(" target qubits, got ");
                push_decimal(&mut s, *actual);
                s
            },
            CircuitError::InvalidControlCount { expected, actual } => {
                let mut s = String::from_str("Expected ");
                push_decimal(&mut s, *expected);
                s.append(" control qubits, got ");
                push_decimal(&mut s, *actual);
                s
            },
            CircuitError::MissingParameters { gate: _ } => {
                let mut s = String::from_str("Missing parameters for gate: ");
                s.append(gate_text);
                s
            },
            CircuitError::QubitInUse { qubit_id } => {
                let mut s = String::from_str("Cannot remove qubit ");
                push_decimal(&mut s, *qubit_id);
                s.append(": it has gates targeting it");
                s
            },
            CircuitError::InvalidPermutation { message } => {
                let mut s = String::from_str("Invalid permutation: ");
                s.append(message.as_str());
                s
            },
            CircuitError::Message(msg) => msg.clone(),
        }
    }
}

/// A copy of a sequence of qubit indices.
fn copy_indices(v: &Vec<usize>) -> (r: Vec<usize>)
    ensures
        r@ == v@,
{
    let mut r: Vec<usize> = Vec::new();
    let mut i: usize = 0;
    while i < v.len()
        invariant
            i <= v.len(),
            r@ == v@.take(i as int),
        decreases v.len() - i,
    {
        r.push(v[i]);
        i = i + 1;
        assert(r@ == v@.take(i as int));
    }
    assert(v@.take(v.len() as int) == v@);
    r
}

/// A copy of a sequence of angle parameters.
fn copy_parameters(v: &Vec<u64>) -> (r: Vec<u64>)
    ensures
        r@ == v@,
{
    let mut r: Vec<u64> = Vec::new();
    let mut i: usize = 0;
    while i < v.len()
        invariant
            i <= v.len(),
            r@ == v@.take(i as int),
        decreases v.len() - i,
    {
        r.push(v[i]);
        i = i + 1;
        assert(r@ == v@.take(i as int));
    }
    assert(v@.take(v.len() as int) == v@);
    r
}

/// Whether `v` contains `x`.
fn contains_index(v: &Vec<usize>, x: usize) -> (b: bool)
    ensures
        b == v@.contains(x),
{
    let mut i: usize = 0;
    while i < v.len()
        invariant
            i <= v.len(),
            forall|j: int| 0 <= j < i ==> v@[j] != x,
        decreases v.len() - i,
    {
        if v[i] == x {
            assert(v@[i as int] == x);
            return true;
        }
        i = i + 1;
    }
    false
}

impl PlacedGate {
    /// Returns true if this gate has control qubits.
    pub fn is_controlled(&self) -> (b: bool)
        ensures
            b == (self.control_qubits@.len() > 0),
    {
        self.control_qubits.len() > 0
    }

    /// Returns all qubits involved in this gate (controls, then targets).
    pub fn all_qubits(&self) -> (v: Vec<usize>)
        ensures
            v@ == all_qubits_of(self@),
    {
        let mut all = copy_indices(&self.control_qubits);
        let mut i: usize = 0;
        while i < self.target_qubits.len()
            invariant
                i <= self.target_qubits.len(),
                all@ == self.control_qubits@ + self.target_qubits@.take(i as int),
            decreases self.target_qubits.len() - i,
        {
            all.push(self.target_qubits[i]);
            i = i + 1;
            assert(all@ == self.control_qubits@ + self.target_qubits@.take(i as int));
        }
        assert(self.target_qubits@.take(self.target_qubits.len() as int) == self.target_qubits@);
        all
    }

    /// A copy of this placed gate.
    pub fn duplicate(&self) -> (g: PlacedGate)
        ensures
            g@ == self@,
    {
        PlacedGate {
            gate: self.gate.duplicate(),
            target_qubits: copy_indices(&self.target_qubits),
            control_qubits: copy_indices(&self.control_qubits),
            column: self.column,
            parameters: copy_parameters(&self.parameters),
        }
    }
}

impl Circuit {
    /// Dropping gates or measurements, wires unchanged, keeps a circuit valid.
    proof fn lemma_valid_after_removal(&self, before: Circuit)
        requires
            self.qubits@ == before.qubits@,
            (self.gates@ == before.gates@ && exists|i: int| 0 <= i < before.measurements@.len()
                && self.measurements@ == before.measurements@.remove(i))
            || (self.measurements@ == before.measurements@ && exists|i: int| 0 <= i < before.gates@.len()
                && self.gates@ == before.gates@.remove(i)),
        ensures
            circuit_valid(before@) ==> circuit_valid(self@),
    {
        if circuit_valid(before@) {
            let c0 = before@;
            let c1 = self@;
            assert forall|i: int| 0 <= i < c1.gates.len() implies c0.gates.contains(#[trigger] c1.gates[i]) by {
                if self.gates@ == before.gates@ {
                    assert(c0.gates[i] == c1.gates[i]);
                } else {
                    let r = choose|r: int| 0 <= r < before.gates@.len() && self.gates@ == before.gates@.remove(r);
                    if i < r {
                        assert(c0.gates[i] == c1.gates[i]);
                    } else {
                        assert(c0.gates[i + 1] == c1.gates[i]);
                    }
                }
            }
            assert forall|i: int| 0 <= i < c1.measurements.len() implies c0.measurements.contains(#[trigger] c1.measurements[i]) by {
                if self.measurements@ == before.measurements@ {
                    assert(c0.measurements[i] == c1.measurements[i]);
                } else {
                    let r = choose|r: int| 0 <= r < before.measurements@.len() && self.measurements@ == before.measurements@.remove(r);
                    if i < r {
                        assert(c0.measurements[i] == c1.measurements[i]);
                    } else {
                        assert(c0.measurements[i + 1] == c1.measurements[i]);
                    }
                }
            }
            lemma_valid_same_wires(c0, c1);
        }
    }
}

impl Circuit {
    /// Creates an empty circuit with `num_qubits` wires labelled `|q0⟩`, `|q1⟩`, ...
    pub fn new(num_qubits: usize) -> (c: Circuit)
        ensures
            has_default_wires(c@.qubits, num_qubits as nat),
            c.gates@.len() == 0,
            c.measurements@.len() == 0,
            circuit_valid(c@),
    {
        let mut qubits: Vec<QubitWire> = Vec::new();
        let mut k: usize = 0;
        while k < num_qubits
            invariant
                k <= num_qubits,
                has_default_wires(wire_views(qubits@), k as nat),
            decreases num_qubits - k,
        {
            let w = QubitWire::with_default_label(k);
            proof { lemma_wire_views_edits(qubits@, 0, w); }
            qubits.push(w);
            k = k + 1;
        }
        Circuit { qubits, gates: Vec::new(), measurements: Vec::new() }
    }

    /// Creates an empty circuit whose wires carry the given labels.
    pub fn with_labels(labels: Vec<String>) -> (c: Circuit)
        ensures
            c.qubits@.len() == labels@.len(),
            forall|k: int| 0 <= k < labels@.len() ==> (#[trigger] c.qubits@[k]).id == k && c.qubits@[k].label == labels@[k],
            c.gates@.len() == 0,
            c.measurements@.len() == 0,
            circuit_valid(c@),
    {
        let mut qubits: Vec<QubitWire> = Vec::new();
        let mut k: usize = 0;
        while k < labels.len()
            invariant
                k <= labels.len(),
                qubits@.len() == k,
                forall|j: int| 0 <= j < k ==> (#[trigger] qubits@[j]).id == j && qubits@[j].label == labels@[j],
            decreases labels.len() - k,
        {
            qubits.push(QubitWire { id: k, label: labels[k].clone() });
            k = k + 1;
        }
        Circuit { qubits, gates: Vec::new(), measurements: Vec::new() }
    }

    /// Returns the number of qubits in the circuit.
    pub fn num_qubits(&self) -> (n: usize)
        ensures
            n == self.qubits@.len(),
    {
        self.qubits.len()
    }

    /// Adds a new wire, with the default label, after the last one.
    pub fn add_qubit(&mut self)
        ensures
            final(self).qubits@.len() == old(self).qubits@.len() + 1,
            final(self).qubits@.drop_last() == old(self).qubits@,
            final(self).qubits@.last().id == old(self).qubits@.len(),
            final(self).qubits@.last().label@ == default_label(old(self).qubits@.len()),
            final(self)@.qubits == old(self)@.qubits.push(WireView {
                id: old(self).qubits@.len() as usize,
                label: default_label(old(self).qubits@.len()),
            }),
            final(self).gates@ == old(self).gates@,
            final(self).measurements@ == old(self).measurements@,
            circuit_valid(old(self)@) ==> circuit_valid(final(self)@),
    {
        let id = self.qubits.len();
        let w = QubitWire::with_default_label(id);
        proof { lemma_wire_views_edits(self.qubits@, 0, w); }
        self.qubits.push(w);
        assert(self.qubits@.drop_last() == old(self).qubits@);
        proof {
            if circuit_valid(old(self)@) {
                assert forall|k: int| 0 <= k < self@.qubits.len() implies (#[trigger] self@.qubits[k]).id == k by {
                    if k < old(self)@.qubits.len() {
                        assert(self@.qubits[k] == old(self)@.qubits[k]);
                    }
                }
                lemma_valid_more_wires(old(self)@, self@);
            }
        }
    }

    /// Adds a measurement of `qubit_id` at `column`.
    pub fn add_measurement(&mut self, qubit_id: usize, column: usize) -> (r: Result<(), CircuitError>)
        ensures
            qubit_id >= old(self).qubits@.len() ==> r == Err::<(), CircuitError>(CircuitError::InvalidQubitIndex {
                index: qubit_id,
                num_qubits: old(self).qubits@.len() as usize,
            }) && final(self)@ == old(self)@,
            qubit_id < old(self).qubits@.len() ==> r is Ok
                && final(self).measurements@ == old(self).measurements@.push(Measurement { qubit_id, column })
                && final(self).qubits@ == old(self).qubits@
                && final(self).gates@ == old(self).gates@,
            circuit_valid(old(self)@) ==> circuit_valid(final(self)@),
    {
        if qubit_id >= self.num_qubits() {
            return Err(CircuitError::InvalidQubitIndex { index: qubit_id, num_qubits: self.num_qubits() });
        }
        self.measurements.push(Measurement { qubit_id, column });
        proof {
            if circuit_valid(old(self)@) {
                assert forall|i: int| 0 <= i < self@.gates.len() implies old(self)@.gates.contains(#[trigger] self@.gates[i]) by {
                    assert(old(self)@.gates[i] == self@.gates[i]);
                }
                assert forall|i: int| 0 <= i < self@.measurements.len() implies
                    old(self)@.measurements.contains(#[trigger] self@.measurements[i]) || self@.measurements[i].qubit_id < self@.qubits.len() by {
                    if i < old(self)@.measurements.len() {
                        assert(old(self)@.measurements[i] == self@.measurements[i]);
                    }
                }
                lemma_valid_same_wires(old(self)@, self@);
            }
        }
        Ok(())
    }

    /// Removes the measurement at `measurement_index`, returning it.
    pub fn remove_measurement(&mut self, measurement_index: usize) -> (r: Option<Measurement>)
        ensures
            measurement_index < old(self).measurements@.len() ==>
                r == Some(old(self).measurements@[measurement_index as int])
                && final(self).measurements@ == old(self).measurements@.remove(measurement_index as int),
            measurement_index >= old(self).measurements@.len() ==> r is None
                && final(self).measurements@ == old(self).measurements@,
            final(self).qubits@ == old(self).qubits@,
            final(self).gates@ == old(self).gates@,
            circuit_valid(old(self)@) ==> circuit_valid(final(self)@),
    {
        if measurement_index < self.measurements.len() {
            let m = self.measurements.remove(measurement_index);
            proof { self.lemma_valid_after_removal(*old(self)); }
            Some(m)
        } else {
            None
        }
    }

    /// Index of the first measurement at `column` on qubit `qubit_idx`.
    pub fn find_measurement_at(&self, column: usize, qubit_idx: usize) -> (r: Option<usize>)
        ensures
            r matches Some(i) ==> first_measurement_at(self.measurements@, column, qubit_idx) == Some(i as int),
            r is None ==> first_measurement_at(self.measurements@, column, qubit_idx) is None,
    {
        let ghost p = |m: Measurement| m.column == column && m.qubit_id == qubit_idx;
        let mut i: usize = 0;
        while i < self.measurements.len()
            invariant
                i <= self.measurements.len(),
                p == (|m: Measurement| m.column == column && m.qubit_id == qubit_idx),
                forall|j: int| 0 <= j < i ==> !p(#[trigger] self.measurements@[j]),
            decreases self.measurements.len() - i,
        {
            let m = self.measurements[i];
            if m.column == column && m.qubit_id == qubit_idx {
                proof { lemma_first_match_at(self.measurements@, p, i as int); }
                return Some(i);
            }
            i = i + 1;
        }
        proof { lemma_first_match_none(self.measurements@, p); }
        None
    }

    /// Index of the first out-of-range entry of `v`.
    fn first_index_out_of_range(v: &Vec<usize>, n: usize) -> (r: Option<usize>)
        ensures
            r matches Some(i) ==> i < v@.len() && first_out_of_range(v@, n as nat) == Some(i as int),
            r is None ==> first_out_of_range(v@, n as nat) is None,
    {
        let ghost p = at_least(n as nat);
        let mut i: usize = 0;
        while i < v.len()
            invariant
                i <= v.len(),
                p == at_least(n as nat),
                forall|j: int| 0 <= j < i ==> !p(#[trigger] v@[j]),
            decreases v.len() - i,
        {
            if v[i] >= n {
                proof { lemma_first_match_at(v@, p, i as int); }
                return Some(i);
            }
            i = i + 1;
        }
        proof { lemma_first_match_none(v@, p); }
        None
    }

    /// Validates a gate placement.
    fn validate_gate(&self, gate: &GateType, targets: &Vec<usize>, controls: &Vec<usize>) -> (r: Result<(), CircuitError>)
        ensures
            r == validate_result(*gate, targets@, controls@, self.qubits@.len() as usize),
    {
        let num_qubits = self.num_qubits();
        if let Some(i) = Self::first_index_out_of_range(targets, num_qubits) {
            return Err(CircuitError::InvalidQubitIndex { index: targets[i], num_qubits });
        }
        if let Some(i) = Self::first_index_out_of_range(controls, num_qubits) {
            return Err(CircuitError::InvalidControlIndex { index: controls[i], num_qubits });
        }
        let ghost p = is_one_of(controls@);
        let mut i: usize = 0;
        while i < targets.len()
            invariant
                i <= targets.len(),
                p == is_one_of(controls@),
                forall|j: int| 0 <= j < i ==> !p(#[trigger] targets@[j]),
                num_qubits == self.qubits@.len(),
                first_out_of_range(targets@, num_qubits as nat) is None,
                first_out_of_range(controls@, num_qubits as nat) is None,
            decreases targets.len() - i,
        {
            if contains_index(controls, targets[i]) {
                proof {
                    assert(p(targets@[i as int]));
                    lemma_first_match_at(targets@, p, i as int);
                    assert(num_qubits == self.qubits@.len());
                    assert(first_overlap(targets@, controls@) is Some);
                }
                return Err(CircuitError::OverlappingTargetsAndControls);
            }
            assert(!p(targets@[i as int]));
            i = i + 1;
        }
        proof { lemma_first_match_none(targets@, p); }
        let expected_targets = gate.num_qubits() - gate.num_controls();
        if targets.len() != expected_targets {
            return Err(CircuitError::InvalidTargetCount { expected: expected_targets, actual: targets.len() });
        }
        let expected_controls = gate.num_controls();
        if controls.len() != expected_controls {
            return Err(CircuitError::InvalidControlCount { expected: expected_controls, actual: controls.len() });
        }
        Ok(())
    }

    /// Adds a gate at `column` after checking its qubits against the circuit.
    pub fn add_gate(&mut self, gate: GateType, target_qubits: Vec<usize>, control_qubits: Vec<usize>, column: usize)
        -> (r: Result<(), CircuitError>)
        ensures
            r == validate_result(gate, target_qubits@, control_qubits@, old(self).qubits@.len() as usize),
            r is Err ==> final(self)@ == old(self)@,
            r is Ok ==> final(self).gates@.len() == old(self).gates@.len() + 1
                && final(self)@.gates == old(self)@.gates.push(PlacedGateView {
                    gate,
                    targets: target_qubits@,
                    controls: control_qubits@,
                    column,
                    parameters: Seq::empty(),
                })
                && final(self).qubits@ == old(self).qubits@
                && final(self).measurements@ == old(self).measurements@,
            circuit_valid(old(self)@) ==> circuit_valid(final(self)@),
    {
        let v = self.validate_gate(&gate, &target_qubits, &control_qubits);
        if v.is_err() {
            return v;
        }
        let placed = PlacedGate { gate, target_qubits, control_qubits, column, parameters: Vec::new() };
        self.gates.push(placed);
        assert(self@.gates =~= old(self)@.gates.push(placed@));
        proof {
            lemma_validate_ok(placed.gate, placed.target_qubits@, placed.control_qubits@, old(self).qubits@.len() as usize);
            if circuit_valid(old(self)@) {
                assert forall|i: int| 0 <= i < self@.gates.len() implies old(self)@.gates.contains(#[trigger] self@.gates[i])
                    || placement_ok(self@.gates[i].gate, self@.gates[i].targets, self@.gates[i].controls, self@.qubits.len()) by {
                    if i < old(self)@.gates.len() {
                        assert(old(self)@.gates[i] == self@.gates[i]);
                    }
                }
                assert forall|i: int| 0 <= i < self@.measurements.len() implies
                    old(self)@.measurements.contains(#[trigger] self@.measurements[i]) by {
                    assert(old(self)@.measurements[i] == self@.measurements[i]);
                }
                lemma_valid_same_wires(old(self)@, self@);
            }
        }
        Ok(())
    }

    /// Returns the largest column used by a gate or measurement (0 if none).
    pub fn max_column(&self) -> (m: usize)
        ensures
            is_max_column(self@, m),
    {
        let mut m: usize = 0;
        let mut i: usize = 0;
        while i < self.gates.len()
            invariant
                i <= self.gates.len(),
                forall|j: int| 0 <= j < i ==> (#[trigger] self.gates@[j]).column <= m,
                m == 0 || exists|j: int| 0 <= j < i && (#[trigger] self.gates@[j]).column == m,
            decreases self.gates.len() - i,
        {
            if self.gates[i].column > m {
                m = self.gates[i].column;
            }
            i = i + 1;
        }
        let mut i: usize = 0;
        while i < self.measurements.len()
            invariant
                i <= self.measurements.len(),
                forall|j: int| 0 <= j < self.gates@.len() ==> (#[trigger] self.gates@[j]).column <= m,
                forall|j: int| 0 <= j < i ==> (#[trigger] self.measurements@[j]).column <= m,
                m == 0 || (exists|j: int| 0 <= j < self.gates@.len() && (#[trigger] self.gates@[j]).column == m)
                    || (exists|j: int| 0 <= j < i && (#[trigger] self.measurements@[j]).column == m),
            decreases self.measurements.len() - i,
        {
            if self.measurements[i].column > m {
                m = self.measurements[i].column;
            }
            i = i + 1;
        }
        proof {
            assert forall|j: int| 0 <= j < self@.measurements.len() implies (#[trigger] self@.measurements[j]).column <= m by {}
            assert forall|j: int| 0 <= j < self@.gates.len() implies (#[trigger] self@.gates[j]).column <= m by {
                assert(self@.gates[j] == self.gates@[j]@);
            }
            if m != 0 {
                if exists|j: int| 0 <= j < self.gates@.len() && (#[trigger] self.gates@[j]).column == m {
                    let j = choose|j: int| 0 <= j < self.gates@.len() && (#[trigger] self.gates@[j]).column == m;
                    assert(self@.gates[j].column == m);
                } else {
                    let j = choose|j: int| 0 <= j < self.measurements@.len() && (#[trigger] self.measurements@[j]).column == m;
                    assert(self@.measurements[j].column == m);
                }
            }
            assert(is_max_column(self@, m));
        }
        m
    }

    /// Removes gate `gate_index`, returning it.
    pub fn remove_gate(&mut self, gate_index: usize) -> (r: Option<PlacedGate>)
        ensures
            gate_index < old(self).gates@.len() ==> (r == Some(old(self).gates@[gate_index as int])
                && final(self).gates@ == old(self).gates@.remove(gate_index as int)
                && final(self)@.gates == old(self)@.gates.remove(gate_index as int)),
            gate_index >= old(self).gates@.len() ==> r is None && final(self)@.gates == old(self)@.gates,
            final(self).qubits@ == old(self).qubits@,
            final(self).measurements@ == old(self).measurements@,
            circuit_valid(old(self)@) ==> circuit_valid(final(self)@),
    {
        if gate_index < self.gates.len() {
            let g = self.gates.remove(gate_index);
            assert(self@.gates =~= old(self)@.gates.remove(gate_index as int));
            proof { self.lemma_valid_after_removal(*old(self)); }
            Some(g)
        } else {
            None
        }
    }

    /// Replaces the type of rotation gate `gate_index` by another rotation
    /// (used to edit rotation angles); only Rx, Ry and Rz can be updated.
    pub fn update_gate_parameters(&mut self, gate_index: usize, new_gate: GateType) -> (r: Result<(), CircuitError>)
        ensures
            gate_index >= old(self).gates@.len() ==> r == Err::<(), CircuitError>(CircuitError::InvalidQubitIndex {
                index: gate_index,
                num_qubits: old(self).gates@.len() as usize,
            }),
            gate_index < old(self).gates@.len()
                && !(spec_is_parameterized(old(self).gates@[gate_index as int].gate) && spec_is_parameterized(new_gate))
                ==> (r matches Err(CircuitError::Message(m)) && m@ == only_rotations_message()),
            r is Err ==> final(self)@ == old(self)@,
            r is Ok <==> gate_index < old(self).gates@.len()
                && spec_is_parameterized(old(self).gates@[gate_index as int].gate) && spec_is_parameterized(new_gate),
            r is Ok ==> final(self)@.gates == old(self)@.gates.update(gate_index as int,
                    PlacedGateView { gate: new_gate, ..old(self)@.gates[gate_index as int] })
                && final(self).qubits@ == old(self).qubits@
                && final(self).measurements@ == old(self).measurements@,
            circuit_valid(old(self)@) ==> circuit_valid(final(self)@),
    {
        if gate_index >= self.gates.len() {
            return Err(CircuitError::InvalidQubitIndex { index: gate_index, num_qubits: self.gates.len() });
        }
        if !(self.gates[gate_index].gate.is_parameterized() && new_gate.is_parameterized()) {
            proof { reveal_strlit("Only parameterized gates (Rx, Ry, Rz) can be updated"); }
            return Err(CircuitError::Message(String::from_str("Only parameterized gates (Rx, Ry, Rz) can be updated")));
        }
        let mut g = self.gates.remove(gate_index);
        g.gate = new_gate;
        self.gates.insert(gate_index, g);
        assert(self@.gates =~= old(self)@.gates.update(gate_index as int,
            PlacedGateView { gate: new_gate, ..old(self)@.gates[gate_index as int] }));
        proof {
            if circuit_valid(old(self)@) {
                let og = old(self)@.gates[gate_index as int];
                assert(placement_ok(og.gate, og.targets, og.controls, old(self)@.qubits.len()));
                assert forall|i: int| 0 <= i < self@.gates.len() implies old(self)@.gates.contains(#[trigger] self@.gates[i])
                    || placement_ok(self@.gates[i].gate, self@.gates[i].targets, self@.gates[i].controls, self@.qubits.len()) by {
                    if i != gate_index {
                        assert(old(self)@.gates[i] == self@.gates[i]);
                    }
                }
                assert forall|i: int| 0 <= i < self@.measurements.len() implies
                    old(self)@.measurements.contains(#[trigger] self@.measurements[i]) by {
                    assert(old(self)@.measurements[i] == self@.measurements[i]);
                }
                lemma_valid_same_wires(old(self)@, self@);
            }
        }
        Ok(())
    }

    /// Index of the first gate at `column` that involves `qubit_idx`.
    pub fn find_gate_at(&self, column: usize, qubit_idx: usize) -> (r: Option<usize>)
        ensures
            r matches Some(i) ==> first_gate_at(self@.gates, column, qubit_idx) == Some(i as int),
            r is None ==> first_gate_at(self@.gates, column, qubit_idx) is None,
    {
        let ghost p = |g: PlacedGateView| g.column == column && all_qubits_of(g).contains(qubit_idx);
        let mut i: usize = 0;
        while i < self.gates.len()
            invariant
                i <= self.gates.len(),
                p == (|g: PlacedGateView| g.column == column && all_qubits_of(g).contains(qubit_idx)),
                forall|j: int| 0 <= j < i ==> !p(#[trigger] self@.gates[j]),
            decreases self.gates.len() - i,
        {
            let g = &self.gates[i];
            if g.column == column {
                let all = g.all_qubits();
                if contains_index(&all, qubit_idx) {
                    proof { lemma_first_match_at(self@.gates, p, i as int); }
                    return Some(i);
                }
            }
            i = i + 1;
        }
        proof { lemma_first_match_none(self@.gates, p); }
        None
    }
}


/// How qubit indices move when wires are removed, reinserted or reordered.
pub(crate) enum IndexMap<'a> {
    /// Qubit `q` was removed: indices above it move down.
    Down(usize),
    /// A qubit was inserted at `q`: indices from it move up.
    Up(usize),
    /// Index `x` moves to `table[x]`.
    Table(&'a Vec<usize>),
}

impl<'a> IndexMap<'a> {
    pub(crate) open spec fn as_fn(&self) -> spec_fn(usize) -> usize {
        match self {
            IndexMap::Down(q) => shifted_down(*q),
            IndexMap::Up(q) => shifted_up(*q),
            IndexMap::Table(t) => |x: usize| t@[x as int],
        }
    }

    pub(crate) open spec fn accepts(&self, x: usize) -> bool {
        match self {
            IndexMap::Down(_) => true,
            IndexMap::Up(_) => x < usize::MAX,
            IndexMap::Table(t) => x < t@.len(),
        }
    }

    /// Every index `c` uses is accepted.
    pub(crate) open spec fn accepts_all(&self, c: CircuitView) -> bool {
        &&& forall|i: int, k: int| 0 <= i < c.gates.len() && 0 <= k < c.gates[i].targets.len() ==> self.accepts(#[trigger] c.gates[i].targets[k])
        &&& forall|i: int, k: int| 0 <= i < c.gates.len() && 0 <= k < c.gates[i].controls.len() ==> self.accepts(#[trigger] c.gates[i].controls[k])
        &&& forall|i: int| 0 <= i < c.measurements.len() ==> self.accepts((#[trigger] c.measurements[i]).qubit_id)
    }

    fn apply(&self, x: usize) -> (r: usize)
        requires
            self.accepts(x),
        ensures
            r == (self.as_fn())(x),
    {
        match self {
            IndexMap::Down(q) => if x > *q { x - 1 } else { x },
            IndexMap::Up(q) => if x >= *q { x + 1 } else { x },
            IndexMap::Table(t) => t[x],
        }
    }

    fn apply_all(&self, v: &Vec<usize>) -> (r: Vec<usize>)
        requires
            forall|k: int| 0 <= k < v@.len() ==> self.accepts(#[trigger] v@[k]),
        ensures
            r@ == v@.map_values(self.as_fn()),
    {
        let mut r: Vec<usize> = Vec::new();
        let mut i: usize = 0;
        while i < v.len()
            invariant
                i <= v.len(),
                forall|k: int| 0 <= k < v@.len() ==> self.accepts(#[trigger] v@[k]),
                r@ == v@.take(i as int).map_values(self.as_fn()),
            decreases v.len() - i,
        {
            let y = self.apply(v[i]);
            r.push(y);
            i = i + 1;
            assert(r@ == v@.take(i as int).map_values(self.as_fn()));
        }
        assert(v@.take(v.len() as int) == v@);
        r
    }
}

/// Renumbers wires so that each id is its position.
fn renumber(ws: &Vec<QubitWire>) -> (r: Vec<QubitWire>)
    ensures
        r@ == renumbered(ws@),
{
    let mut r: Vec<QubitWire> = Vec::new();
    let mut k: usize = 0;
    while k < ws.len()
        invariant
            k <= ws.len(),
            r@ == renumbered(ws@).take(k as int),
        decreases ws.len() - k,
    {
        r.push(QubitWire { id: k, label: ws[k].label.clone() });
        k = k + 1;
        assert(r@ == renumbered(ws@).take(k as int));
    }
    assert(renumbered(ws@).take(ws.len() as int) == renumbered(ws@));
    r
}

/// Changing a map outside the indices a circuit uses changes nothing.
proof fn lemma_ops_remapped_agree(a: CircuitView, b: CircuitView, f: spec_fn(usize) -> usize, g: spec_fn(usize) -> usize, n: nat)
    requires
        ops_remapped(a, b, f),
        indices_below(a, n),
        forall|x: usize| x < n ==> #[trigger] f(x) == g(x),
    ensures
        ops_remapped(a, b, g),
{
    assert forall|i: int| 0 <= i < a.gates.len() implies gate_remapped(a.gates[i], #[trigger] b.gates[i], g) by {
        assert(a.gates[i].targets.map_values(f) =~= a.gates[i].targets.map_values(g)) by {
            assert forall|k: int| 0 <= k < a.gates[i].targets.len() implies
                #[trigger] f(a.gates[i].targets[k]) == g(a.gates[i].targets[k]) by {}
        }
        assert(a.gates[i].controls.map_values(f) =~= a.gates[i].controls.map_values(g)) by {
            assert forall|k: int| 0 <= k < a.gates[i].controls.len() implies
                #[trigger] f(a.gates[i].controls[k]) == g(a.gates[i].controls[k]) by {}
        }
    }
}

impl Circuit {
    /// Maps every qubit index of every gate and measurement through `m`.
    fn remap_operations(&mut self, m: &IndexMap)
        requires
            m.accepts_all(old(self)@),
        ensures
            ops_remapped(old(self)@, final(self)@, m.as_fn()),
            final(self).qubits@ == old(self).qubits@,
    {
        let mut gates: Vec<PlacedGate> = Vec::new();
        let mut i: usize = 0;
        while i < self.gates.len()
            invariant
                i <= self.gates.len(),
                m.accepts_all(self@),
                gates@.len() == i,
                forall|j: int| 0 <= j < i ==> gate_remapped(self@.gates[j], #[trigger] gates@[j]@, m.as_fn()),
            decreases self.gates.len() - i,
        {
            let g = &self.gates[i];
            proof {
                assert(self@.gates[i as int] == g@);
                assert forall|k: int| 0 <= k < g.target_qubits@.len() implies m.accepts(#[trigger] g.target_qubits@[k]) by {
                    assert(self@.gates[i as int].targets[k] == g.target_qubits@[k]);
                }
                assert forall|k: int| 0 <= k < g.control_qubits@.len() implies m.accepts(#[trigger] g.control_qubits@[k]) by {
                    assert(self@.gates[i as int].controls[k] == g.control_qubits@[k]);
                }
            }
            let ng = PlacedGate {
                gate: g.gate.duplicate(),
                target_qubits: m.apply_all(&g.target_qubits),
                control_qubits: m.apply_all(&g.control_qubits),
                column: g.column,
                parameters: copy_parameters(&g.parameters),
            };
            gates.push(ng);
            i = i + 1;
        }
        let mut meas: Vec<Measurement> = Vec::new();
        let mut i: usize = 0;
        while i < self.measurements.len()
            invariant
                i <= self.measurements.len(),
                m.accepts_all(self@),
                meas@.len() == i,
                forall|j: int| 0 <= j < i ==> (#[trigger] meas@[j]).qubit_id == (m.as_fn())(self.measurements@[j].qubit_id)
                    && meas@[j].column == self.measurements@[j].column,
            decreases self.measurements.len() - i,
        {
            let mm = self.measurements[i];
            proof { assert(self@.measurements[i as int] == mm); }
            meas.push(Measurement { qubit_id: m.apply(mm.qubit_id), column: mm.column });
            i = i + 1;
        }
        self.gates = gates;
        self.measurements = meas;
    }

    /// Whether any gate or measurement uses qubit `q`.
    fn uses_qubit(&self, q: usize) -> (b: bool)
        ensures
            b == qubit_in_use(self@, q),
    {
        let mut i: usize = 0;
        while i < self.gates.len()
            invariant
                i <= self.gates.len(),
                forall|j: int| 0 <= j < i ==> !gate_uses(#[trigger] self@.gates[j], q),
            decreases self.gates.len() - i,
        {
            if contains_index(&self.gates[i].target_qubits, q) || contains_index(&self.gates[i].control_qubits, q) {
                assert(gate_uses(self@.gates[i as int], q));
                return true;
            }
            i = i + 1;
        }
        let mut i: usize = 0;
        while i < self.measurements.len()
            invariant
                i <= self.measurements.len(),
                forall|j: int| 0 <= j < self@.gates.len() ==> !gate_uses(#[trigger] self@.gates[j], q),
                forall|j: int| 0 <= j < i ==> (#[trigger] self.measurements@[j]).qubit_id != q,
            decreases self.measurements.len() - i,
        {
            if self.measurements[i].qubit_id == q {
                assert(self@.measurements[i as int].qubit_id == q);
                return true;
            }
            i = i + 1;
        }
        false
    }

    /// Removes wire `qubit_id` when no gate or measurement uses it; later
    /// wires and all qubit indices above it move down by one.
    pub fn remove_qubit(&mut self, qubit_id: usize) -> (r: Result<(), CircuitError>)
        ensures
            qubit_id >= old(self).qubits@.len() ==> r == Err::<(), CircuitError>(CircuitError::InvalidQubitIndex {
                index: qubit_id,
                num_qubits: old(self).qubits@.len() as usize,
            }),
            qubit_id < old(self).qubits@.len() && qubit_in_use(old(self)@, qubit_id) ==>
                r == Err::<(), CircuitError>(CircuitError::QubitInUse { qubit_id }),
            r is Err ==> final(self)@ == old(self)@,
            r is Ok <==> qubit_id < old(self).qubits@.len() && !qubit_in_use(old(self)@, qubit_id),
            r is Ok ==> qubit_id < old(self).qubits@.len() && !qubit_in_use(old(self)@, qubit_id)
                && final(self).qubits@ == renumbered(old(self).qubits@.remove(qubit_id as int))
                && final(self)@.qubits == renumbered_views(old(self)@.qubits.remove(qubit_id as int))
                && ops_remapped(old(self)@, final(self)@, shifted_down(qubit_id)),
            circuit_valid(old(self)@) ==> circuit_valid(final(self)@),
    {
        if qubit_id >= self.num_qubits() {
            return Err(CircuitError::InvalidQubitIndex { index: qubit_id, num_qubits: self.num_qubits() });
        }
        if self.uses_qubit(qubit_id) {
            return Err(CircuitError::QubitInUse { qubit_id });
        }
        let mut qubits: Vec<QubitWire> = Vec::new();
        std::mem::swap(&mut qubits, &mut self.qubits);
        qubits.remove(qubit_id);
        proof {
            lemma_wire_views_edits(old(self).qubits@, qubit_id as int, old(self).qubits@[0]);
            lemma_wire_views_renumbered(qubits@);
        }
        self.qubits = renumber(&qubits);
        let m = IndexMap::Down(qubit_id);
        self.remap_operations(&m);
        proof {
            if circuit_valid(old(self)@) {
                let c0 = old(self)@;
                let n0 = c0.qubits.len();
                let ok = |x: usize| x < n0 && x != qubit_id;
                assert forall|i: int, k: int| 0 <= i < c0.gates.len() && 0 <= k < c0.gates[i].targets.len()
                    implies ok(#[trigger] c0.gates[i].targets[k]) by {
                    assert(placement_ok(c0.gates[i].gate, c0.gates[i].targets, c0.gates[i].controls, n0));
                    assert(!gate_uses(c0.gates[i], qubit_id));
                    assert(c0.gates[i].targets.contains(c0.gates[i].targets[k]));
                }
                assert forall|i: int, k: int| 0 <= i < c0.gates.len() && 0 <= k < c0.gates[i].controls.len()
                    implies ok(#[trigger] c0.gates[i].controls[k]) by {
                    assert(placement_ok(c0.gates[i].gate, c0.gates[i].targets, c0.gates[i].controls, n0));
                    assert(!gate_uses(c0.gates[i], qubit_id));
                    assert(c0.gates[i].controls.contains(c0.gates[i].controls[k]));
                }
                lemma_valid_remapped(c0, self@, shifted_down(qubit_id), ok);
            }
        }
        Ok(())
    }

    /// Checks that `permutation` lists each wire exactly once.
    fn check_permutation(n: usize, permutation: &[usize]) -> (r: Result<(), String>)
        ensures
            permutation@.len() != n ==> (r matches Err(m) && m@ == perm_length_message(n as nat, permutation@.len())),
            permutation@.len() == n ==> (match first_perm_problem(permutation@, n as nat) {
                Some(i) => (r matches Err(m) && m@ == perm_problem_message(permutation@, n as nat, i)),
                None => r is Ok,
            }),
    {
        proof {
            reveal_strlit("Expected ");
            reveal_strlit(" indices, got ");
            reveal_strlit("Index ");
            reveal_strlit(" out of bounds (max: ");
            reveal_strlit(")");
            reveal_strlit(" appears multiple times");
        }
        if permutation.len() != n {
            let mut m = String::from_str("Expected ");
            push_decimal(&mut m, n);
            m.append(" indices, got ");
            push_decimal(&mut m, permutation.len());
            return Err(m);
        }
        let ghost p = permutation@;
        let ghost idx = Seq::new(p.len(), |i: int| i);
        let ghost pred = |i: int| perm_problem(p, n as nat, i);
        let mut seen: Vec<bool> = Vec::new();
        let mut k: usize = 0;
        while k < n
            invariant
                k <= n,
                seen@ == Seq::new(k as nat, |i: int| false),
            decreases n - k,
        {
            seen.push(false);
            k = k + 1;
            assert(seen@ =~= Seq::new(k as nat, |i: int| false));
        }
        let mut i: usize = 0;
        while i < n
            invariant
                i <= n,
                n == p.len(),
                p == permutation@,
                idx == Seq::new(p.len(), |i: int| i),
                pred == (|i: int| perm_problem(p, n as nat, i)),
                seen@.len() == n,
                forall|x: int| 0 <= x < n ==> (seen@[x] <==> p.take(i as int).contains(x as usize)),
                forall|j: int| 0 <= j < i ==> !pred(#[trigger] idx[j]),
            decreases n - i,
        {
            let x = permutation[i];
            if x >= n {
                let mut m = String::from_str("Index ");
                push_decimal(&mut m, x);
                m.append(" out of bounds (max: ");
                push_decimal(&mut m, n - 1);
                m.append(")");
                proof {
                    assert(pred(idx[i as int]));
                    lemma_first_match_at(idx, pred, i as int);
                }
                return Err(m);
            }
            if seen[x] {
                let mut m = String::from_str("Index ");
                push_decimal(&mut m, x);
                m.append(" appears multiple times");
                proof {
                    assert(p.take(i as int).contains(x));
                    assert(pred(idx[i as int]));
                    lemma_first_match_at(idx, pred, i as int);
                }
                return Err(m);
            }
            seen.set(x, true);
            proof {
                assert(!p.take(i as int).contains(x));
                assert(!pred(idx[i as int]));
                assert(p.take(i + 1) == p.take(i as int).push(x));
                assert forall|y: int| 0 <= y < n implies (seen@[y] <==> p.take(i + 1).contains(y as usize)) by {
                    vstd::seq_lib::lemma_seq_contains_after_push(p.take(i as int), x, y as usize);
                }
            }
            i = i + 1;
        }
        proof { lemma_first_match_none(idx, pred); }
        Ok(())
    }

    /// Reorders the wires: old wire `permutation[k]` becomes wire `k`, and
    /// every gate and measurement follows its wire.
    pub fn reorder_qubits(&mut self, permutation: &[usize]) -> (r: Result<(), CircuitError>)
        requires
            is_permutation(permutation@, old(self).qubits@.len()) ==> indices_below(old(self)@, old(self).qubits@.len()),
        ensures
            permutation@.len() != old(self).qubits@.len() ==> (r matches Err(CircuitError::InvalidPermutation { message })
                && message@ == perm_length_message(old(self).qubits@.len(), permutation@.len())),
            permutation@.len() == old(self).qubits@.len() ==> (match first_perm_problem(permutation@, old(self).qubits@.len()) {
                Some(i) => (r matches Err(CircuitError::InvalidPermutation { message })
                    && message@ == perm_problem_message(permutation@, old(self).qubits@.len(), i)),
                None => r is Ok,
            }),
            r is Err ==> final(self)@ == old(self)@,
            r is Ok ==> is_permutation(permutation@, old(self).qubits@.len())
                && final(self).qubits@ == reordered(old(self).qubits@, permutation@)
                && ops_remapped(old(self)@, final(self)@, new_position(permutation@)),
            circuit_valid(old(self)@) ==> circuit_valid(final(self)@),
    {
        let n = self.num_qubits();
        match Self::check_permutation(n, permutation) {
            Err(message) => {
                return Err(CircuitError::InvalidPermutation { message });
            },
            Ok(()) => {},
        }
        let ghost p = permutation@;
        proof {
            lemma_permutation_covers(p, n as nat);
            lemma_no_problem::<usize>(p, n as nat);
            assert forall|i: int| 0 <= i < p.len() implies (#[trigger] p[i]) < n by {
                assert(!perm_problem(p, n as nat, i));
            }
        }
        let mut old_to_new: Vec<usize> = Vec::new();
        let mut k: usize = 0;
        while k < n
            invariant
                k <= n,
                old_to_new@.len() == k,
            decreases n - k,
        {
            old_to_new.push(0);
            k = k + 1;
        }
        let mut k: usize = 0;
        while k < n
            invariant
                k <= n,
                n == p.len(),
                p == permutation@,
                old_to_new@.len() == n,
                is_permutation(p, n as nat),
                forall|x: usize| x < n ==> p.contains(x),
                forall|i: int| 0 <= i < p.len() ==> p.index_of(#[trigger] p[i]) == i,
                forall|j: int| 0 <= j < k ==> old_to_new@[#[trigger] p[j] as int] == j,
                forall|i: int| 0 <= i < p.len() ==> (#[trigger] p[i]) < n,
            decreases n - k,
        {
            proof { lemma_no_problem::<usize>(p, n as nat); assert(!perm_problem(p, n as nat, k as int)); }
            old_to_new.set(permutation[k], k);
            proof {
                assert forall|j: int| 0 <= j < k + 1 implies old_to_new@[#[trigger] p[j] as int] == j by {
                    if j < k {
                        lemma_permutation_covers(p, n as nat);
                        assert(p[j] != p[k as int]);
                    }
                }
            }
            k = k + 1;
        }
        let mut qubits: Vec<QubitWire> = Vec::new();
        let mut k: usize = 0;
        while k < n
            invariant
                k <= n,
                n == p.len(),
                p == permutation@,
                n == self.qubits@.len(),
                forall|i: int| 0 <= i < p.len() ==> (#[trigger] p[i]) < n,
                qubits@ == reordered(self.qubits@, p).take(k as int),
            decreases n - k,
        {
            let w = QubitWire { id: k, label: self.qubits[permutation[k]].label.clone() };
            qubits.push(w);
            k = k + 1;
            assert(qubits@ == reordered(self.qubits@, p).take(k as int));
        }
        assert(reordered(self.qubits@, p).take(n as int) == reordered(self.qubits@, p));
        let ghost before = self@;
        self.qubits = qubits;
        let m = IndexMap::Table(&old_to_new);
        proof {
            assert(indices_below(before, n as nat));
            assert(self@.gates == before.gates);
            assert(self@.measurements == before.measurements);
            assert(m.accepts_all(self@));
            let f = m.as_fn();
            let g = new_position(p);
            assert forall|x: usize| x < n implies #[trigger] f(x) == g(x) by {
                assert(p.contains(x));
                let j = choose|j: int| 0 <= j < p.len() && p[j] == x;
                assert(old_to_new@[p[j] as int] == j);
            }
        }
        self.remap_operations(&m);
        proof {
            lemma_ops_remapped_agree(before, self@, m.as_fn(), new_position(p), n as nat);
            if circuit_valid(old(self)@) {
                let c0 = old(self)@;
                let f = new_position(p);
                let ok = |x: usize| x < n;
                assert forall|k: int| 0 <= k < self@.qubits.len() implies (#[trigger] self@.qubits[k]).id == k by {
                    assert(self@.qubits[k] == self.qubits@[k]@);
                }
                assert forall|x: usize| #[trigger] ok(x) implies f(x) < self@.qubits.len() by {
                    assert(p.contains(x));
                }
                assert forall|x: usize, y: usize| #[trigger] ok(x) && #[trigger] ok(y) && x != y implies f(x) != f(y) by {
                    assert(p.contains(x));
                    assert(p.contains(y));
                }
                assert forall|i: int, k: int| 0 <= i < c0.gates.len() && 0 <= k < c0.gates[i].targets.len()
                    implies ok(#[trigger] c0.gates[i].targets[k]) by {
                    assert(placement_ok(c0.gates[i].gate, c0.gates[i].targets, c0.gates[i].controls, c0.qubits.len()));
                }
                assert forall|i: int, k: int| 0 <= i < c0.gates.len() && 0 <= k < c0.gates[i].controls.len()
                    implies ok(#[trigger] c0.gates[i].controls[k]) by {
                    assert(placement_ok(c0.gates[i].gate, c0.gates[i].targets, c0.gates[i].controls, c0.qubits.len()));
                }
                lemma_valid_remapped(c0, self@, f, ok);
            }
        }
        Ok(())
    }

    /// Returns all gates in execution order: by column, ties in insertion order.
    pub fn gates_by_column(&self) -> (sorted: Vec<&PlacedGate>)
        ensures
            sorted@.len() == self.gates@.len(),
            is_stable_order(gate_columns(self@.gates), stable_order(gate_columns(self@.gates))),
            forall|k: int| 0 <= k < sorted@.len() ==> (#[trigger] sorted@[k])@ == self@.gates[stable_order(gate_columns(self@.gates))[k] as int],
    {
        let mut keys: Vec<usize> = Vec::new();
        let mut i: usize = 0;
        while i < self.gates.len()
            invariant
                i <= self.gates@.len(),
                keys@ == gate_columns(self@.gates).take(i as int),
            decreases self.gates.len() - i,
        {
            keys.push(self.gates[i].column);
            i = i + 1;
            assert(keys@ == gate_columns(self@.gates).take(i as int));
        }
        assert(keys@ == gate_columns(self@.gates));
        let ord = stable_order_indices(&keys);
        let mut sorted: Vec<&PlacedGate> = Vec::new();
        let mut k: usize = 0;
        while k < ord.len()
            invariant
                k <= ord@.len(),
                is_stable_order(keys@, ord@),
                keys@.len() == self.gates@.len(),
                ord@ == stable_order(gate_columns(self@.gates)),
                sorted@.len() == k,
                forall|j: int| 0 <= j < k ==> (#[trigger] sorted@[j])@ == self@.gates[ord@[j] as int],
            decreases ord@.len() - k,
        {
            sorted.push(&self.gates[ord[k]]);
            k = k + 1;
        }
        sorted
    }
}

impl Circuit {
    /// Puts `wire` back at position `qubit_id` (undoing a removal): wires
    /// are renumbered, and every qubit index from `qubit_id` on moves up by one.
    pub fn reinsert_qubit(&mut self, qubit_id: usize, wire: QubitWire)
        requires
            qubit_id <= old(self).qubits@.len(),
            indices_below(old(self)@, usize::MAX as nat),
        ensures
            final(self).qubits@ == renumbered(old(self).qubits@.insert(qubit_id as int, wire)),
            final(self)@.qubits == renumbered_views(old(self)@.qubits.insert(qubit_id as int, wire@)),
            ops_remapped(old(self)@, final(self)@, shifted_up(qubit_id)),
            circuit_valid(old(self)@) ==> circuit_valid(final(self)@),
    {
        let mut qubits: Vec<QubitWire> = Vec::new();
        std::mem::swap(&mut qubits, &mut self.qubits);
        proof {
            lemma_wire_views_edits(old(self).qubits@, qubit_id as int, wire);
            lemma_wire_views_renumbered(old(self).qubits@.insert(qubit_id as int, wire));
        }
        qubits.insert(qubit_id, wire);
        self.qubits = renumber(&qubits);
        let m = IndexMap::Up(qubit_id);
        assert(self@.gates == old(self)@.gates && self@.measurements == old(self)@.measurements);
        assert(m.accepts_all(self@));
        self.remap_operations(&m);
        let total = self.qubits.len();
        proof {
            if circuit_valid(old(self)@) {
                let c0 = old(self)@;
                let n0 = c0.qubits.len();
                let ok = |x: usize| x < n0 && x < usize::MAX;
                assert(self@.qubits == renumbered_views(c0.qubits.insert(qubit_id as int, wire@)));
                assert forall|k: int| 0 <= k < self@.qubits.len() implies (#[trigger] self@.qubits[k]).id == k by {
                    assert(k < total);
                }
                assert forall|i: int, k: int| 0 <= i < c0.gates.len() && 0 <= k < c0.gates[i].targets.len()
                    implies ok(#[trigger] c0.gates[i].targets[k]) by {
                    assert(placement_ok(c0.gates[i].gate, c0.gates[i].targets, c0.gates[i].controls, n0));
                }
                assert forall|i: int, k: int| 0 <= i < c0.gates.len() && 0 <= k < c0.gates[i].controls.len()
                    implies ok(#[trigger] c0.gates[i].controls[k]) by {
                    assert(placement_ok(c0.gates[i].gate, c0.gates[i].targets, c0.gates[i].controls, n0));
                }
                lemma_valid_remapped(c0, self@, shifted_up(qubit_id), ok);
            }
        }
    }
}

impl Circuit {
    /// Gives wire `qubit_id` a new label.
    pub fn rename_qubit(&mut self, qubit_id: usize, new_label: &str) -> (r: Result<(), CircuitError>)
        ensures
            qubit_id >= old(self).qubits@.len() ==> r == Err::<(), CircuitError>(CircuitError::InvalidQubitIndex {
                index: qubit_id,
                num_qubits: old(self).qubits@.len() as usize,
            }) && final(self)@ == old(self)@,
            qubit_id < old(self).qubits@.len() ==> r is Ok
                && final(self).qubits@.len() == old(self).qubits@.len()
                && final(self).qubits@[qubit_id as int].label@ == new_label@
                && final(self).qubits@[qubit_id as int].id == old(self).qubits@[qubit_id as int].id
                && (forall|k: int| 0 <= k < old(self).qubits@.len() && k != qubit_id ==> #[trigger] final(self).qubits@[k] == old(self).qubits@[k])
                && final(self).gates@ == old(self).gates@
                && final(self).measurements@ == old(self).measurements@,
            circuit_valid(old(self)@) ==> circuit_valid(final(self)@),
    {
        if qubit_id >= self.num_qubits() {
            return Err(CircuitError::InvalidQubitIndex { index: qubit_id, num_qubits: self.num_qubits() });
        }
        let id = self.qubits[qubit_id].id;
        self.qubits.set(qubit_id, QubitWire { id, label: String::from_str(new_label) });
        proof {
            if circuit_valid(old(self)@) {
                assert forall|k: int| 0 <= k < self@.qubits.len() implies (#[trigger] self@.qubits[k]).id == k by {
                    assert(old(self)@.qubits[k].id == k);
                    if k != qubit_id {
                        assert(self.qubits@[k] == old(self).qubits@[k]);
                    }
                }
                lemma_valid_more_wires(old(self)@, self@);
            }
        }
        Ok(())
    }
}

} // verus!
