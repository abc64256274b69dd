//! Editor state for placing gates click by click, selecting gates, the
//! clipboard, the context menu and the parameter editor.
use vstd::prelude::*;
use crate::circuit::{PlacedGate, PlacedGateView, all_qubits_of};
use crate::gate::{GateType, same_gate, spec_display_name, spec_num_controls, spec_num_qubits};
use crate::text::{decimal, push_decimal};
use crate::view::{GateHitResult, GateInteraction};

verus! {

/// Target position for gate placement on the circuit grid.
#[derive(Debug, Clone, Copy, PartialEq, Eq, Structural)]
pub struct DropTarget {
    pub qubit_idx: usize,
    pub column: usize,
}

/// Clipboard content for copy and paste.
#[derive(Debug)]
pub enum ClipboardContent {
    /// A single gate with its original column and qubits, for relative paste.
    Single { gate: PlacedGate, original_column: usize, original_qubits: Vec<usize> },
    /// Several gates, each with its original column and qubits.
    Multiple(Vec<(PlacedGate, usize, Vec<usize>)>),
}

/// Identifies a gate in the circuit.
#[derive(Debug, Clone, Copy, PartialEq, Eq, Hash, Structural)]
pub struct GateId {
    pub index: usize,
}

/// A multi-qubit gate collecting its qubits click by click.
#[derive(Debug, Clone)]
pub struct MultiQubitPending {
    pub gate: GateType,
    pub selected_qubits: Vec<usize>,
    pub column: usize,
}

/// A complete gate placement, ready to go into the circuit.
#[derive(Debug, Clone)]
pub struct GatePlacement {
    pub gate: GateType,
    pub target_qubits: Vec<usize>,
    pub control_qubits: Vec<usize>,
    pub column: usize,
}

/// Type of item a context menu is for.
#[derive(Debug, Clone, Copy, PartialEq, Eq, Structural)]
pub enum ContextMenuType {
    /// A gate.
    Gate,
    /// A measurement.
    Measurement,
}

/// An open context menu.
#[derive(Debug, Clone, Copy)]
pub struct ContextMenuState {
    /// Where the menu appears, as the bit patterns of its two `f32`
    /// screen coordinates.
    pub position: (u32, u32),
    /// Index of the item that was right-clicked.
    pub item_index: usize,
    /// Type of item.
    pub item_type: ContextMenuType,
}

impl ContextMenuState {
    /// A context menu at `position` for the given item.
    pub fn new(position: (u32, u32), item_index: usize, item_type: ContextMenuType) -> (m: Self)
        ensures
            m.position == position,
            m.item_index == item_index,
            m.item_type == item_type,
    {
        ContextMenuState { position, item_index, item_type }
    }
}

/// Editor state: pending multi-qubit placement, selected gates, clipboard,
/// context menu and which gate has its parameters are being edited.
#[derive(Debug)]
pub struct EditorState {
    /// Pending multi-qubit gate placement.
    pub multi_qubit_pending: Option<MultiQubitPending>,
    /// Selected gates (each at most once by the methods below).
    pub selected_gates: Vec<GateId>,
    /// Last gate selected without Ctrl.
    pub last_selected_gate: Option<GateId>,
    /// Clipboard for copy and paste.
    pub clipboard: Option<ClipboardContent>,
    /// Open context menu.
    pub context_menu: Option<ContextMenuState>,
    /// Gate whose parameters are being edited.
    pub editing_gate: Option<usize>,
}

impl Default for EditorState {
    fn default() -> (e: Self)
        ensures
            e.multi_qubit_pending is None,
            e.selected_gates@ == Seq::<GateId>::empty(),
            e.last_selected_gate is None,
            e.clipboard is None,
            e.context_menu is None,
            e.editing_gate is None,
    {
        EditorState {
            multi_qubit_pending: None,
            selected_gates: Vec::new(),
            last_selected_gate: None,
            clipboard: None,
            context_menu: None,
            editing_gate: None,
        }
    }
}

/// Model of a placement: gate, targets, controls, column.
pub open spec fn placement_view(p: GatePlacement) -> (GateType, Seq<usize>, Seq<usize>, usize) {
    (p.gate, p.target_qubits@, p.control_qubits@, p.column)
}

/// The indices of the selected gates, as a set.
pub open spec fn selection(ids: Seq<GateId>) -> Set<usize> {
    Set::new(|i: usize| exists|k: int| 0 <= k < ids.len() && ids[k].index == i)
}

/// The status line: the next qubit a pending placement asks for, or the
/// gate about to be placed (`angle` renders its angle), or `Ready`.
pub open spec fn status_line(pending: Option<MultiQubitPending>, gate: Option<GateType>, angle: Seq<char>) -> Seq<char> {
    match pending {
        Some(p) => {
            let done = p.selected_qubits@.len();
            let total = spec_num_qubits(p.gate);
            if done < spec_num_controls(p.gate) {
                "Select control qubit ("@ + decimal(done + 1) + "/"@ + decimal(total) + ")"@
            } else {
                "Select target qubit ("@ + decimal(done + 1) + "/"@ + decimal(total) + ")"@
            }
        },
        None => match gate {
            Some(g) => "Click wire to place "@ + spec_display_name(g, angle),
            None => "Ready"@,
        },
    }
}

fn copy_range(v: &Vec<usize>, a: usize, b: usize) -> (r: Vec<usize>)
    requires
        a <= b <= v@.len(),
    ensures
        r@ == v@.subrange(a as int, b as int),
{
    let mut r: Vec<usize> = Vec::new();
    let mut k = a;
    while k < b
        invariant
            a <= k <= b,
            b <= v@.len(),
            r@ == v@.subrange(a as int, k as int),
        decreases b - k,
    {
        r.push(v[k]);
        k = k + 1;
        assert(r@ =~= v@.subrange(a as int, k as int));
    }
    r
}

fn has_index(v: &Vec<usize>, x: usize) -> (b: bool)
    ensures
        b == v@.contains(x),
{
    let mut i: usize = 0;
    while i < v.len()
        invariant
            i <= v@.len(),
            forall|j: int| 0 <= j < i ==> v@[j] != x,
        decreases v@.len() - i,
    {
        if v[i] == x {
            assert(v@[i as int] == x);
            return true;
        }
        i = i + 1;
    }
    false
}

/// What one click with `gate` at `target` does: the pending multi-qubit
/// placement goes from `before` to `after`, and `r` is the placement made,
/// if any (see `EditorState::try_place`).
pub open spec fn click_effect(
    before: Option<MultiQubitPending>, gate: GateType, target: DropTarget, after: Option<MultiQubitPending>,
    r: Option<GatePlacement>,
) -> bool {
    &&& (spec_num_qubits(gate) == 1 ==> after is None
        && (r matches Some(p) && placement_view(p) == (gate, seq![target.qubit_idx], Seq::<usize>::empty(), target.column)))
    &&& (spec_num_qubits(gate) != 1 ==> (match before {
        Some(p) => if same_gate(p.gate, gate) {
            if p.selected_qubits@.contains(target.qubit_idx) {
                r is None && after == before
            } else {
                let sel = p.selected_qubits@.push(target.qubit_idx);
                let c = spec_num_controls(p.gate);
                if sel.len() == spec_num_qubits(gate) {
                    after is None && (r matches Some(pl) && c <= sel.len()
                        && placement_view(pl) == (p.gate, sel.subrange(c as int, sel.len() as int), sel.subrange(0, c as int), p.column))
                } else {
                    r is None && (after matches Some(np)
                        && np.gate == p.gate && np.selected_qubits@ == sel && np.column == p.column)
                }
            }
        } else {
            r is None && (after matches Some(np)
                && np.gate == gate && np.selected_qubits@ == seq![target.qubit_idx] && np.column == target.column)
        },
        None => r is None && (after matches Some(np)
            && np.gate == gate && np.selected_qubits@ == seq![target.qubit_idx] && np.column == target.column),
    }))
}

/// The qubits of a sequence of clicks.
pub open spec fn clicked_qubits(clicks: Seq<DropTarget>) -> Seq<usize> {
    clicks.map_values(|t: DropTarget| t.qubit_idx)
}

proof fn lemma_clicks_pending(
    gate: GateType, clicks: Seq<DropTarget>, pend: Seq<Option<MultiQubitPending>>, results: Seq<Option<GatePlacement>>, i: int,
)
    requires
        spec_num_qubits(gate) >= 2,
        clicks.len() == spec_num_qubits(gate),
        pend.len() == clicks.len() + 1,
        results.len() == clicks.len(),
        pend[0] is None,
        forall|j: int| 0 <= j < clicks.len() ==> #[trigger] click_effect(pend[j], gate, clicks[j], pend[j + 1], results[j]),
        forall|j: int, l: int| 0 <= j < l < clicks.len() ==> clicks[j].qubit_idx != clicks[l].qubit_idx,
        1 <= i < clicks.len(),
    ensures
        pend[i] matches Some(np) && np.gate == gate && np.selected_qubits@ == clicked_qubits(clicks).take(i)
            && np.column == clicks[0].column,
        forall|j: int| 0 <= j < i ==> (#[trigger] results[j]) is None,
    decreases i,
{
    let j0 = i - 1;
    assert(click_effect(pend[j0], gate, clicks[j0], pend[j0 + 1], results[j0]));
    assert(j0 + 1 == i);
    if i == 1 {
        assert(clicked_qubits(clicks).take(1) =~= seq![clicks[0].qubit_idx]);
    } else {
        lemma_clicks_pending(gate, clicks, pend, results, i - 1);
        let p = pend[i - 1]->Some_0;
        assert(same_gate(p.gate, gate));
        let qs = clicked_qubits(clicks);
        assert(!p.selected_qubits@.contains(clicks[i - 1].qubit_idx)) by {
            if p.selected_qubits@.contains(clicks[i - 1].qubit_idx) {
                let j = choose|j: int| 0 <= j < p.selected_qubits@.len() && p.selected_qubits@[j] == clicks[i - 1].qubit_idx;
                assert(qs.take(i - 1)[j] == clicks[j].qubit_idx);
            }
        }
        assert(qs.take(i - 1).push(clicks[i - 1].qubit_idx) =~= qs.take(i));
    }
}

/// Placing a gate on k >= 2 qubits takes k clicks on distinct qubits:
/// from nothing pending, the first k - 1 clicks place nothing, and the
/// k-th places it with the first clicked qubits as its controls and
/// the rest as its targets, in click order, at the first click's column.
pub proof fn lemma_k_clicks_place(
    gate: GateType, clicks: Seq<DropTarget>, pend: Seq<Option<MultiQubitPending>>, results: Seq<Option<GatePlacement>>,
)
    requires
        spec_num_qubits(gate) >= 2,
        clicks.len() == spec_num_qubits(gate),
        pend.len() == clicks.len() + 1,
        results.len() == clicks.len(),
        pend[0] is None,
        forall|j: int| 0 <= j < clicks.len() ==> #[trigger] click_effect(pend[j], gate, clicks[j], pend[j + 1], results[j]),
        forall|j: int, l: int| 0 <= j < l < clicks.len() ==> clicks[j].qubit_idx != clicks[l].qubit_idx,
    ensures
        forall|j: int| 0 <= j < clicks.len() - 1 ==> (#[trigger] results[j]) is None,
        pend[clicks.len() as int] is None,
        results[clicks.len() - 1] matches Some(pl) && placement_view(pl) == (
            gate,
            clicked_qubits(clicks).subrange(spec_num_controls(gate) as int, clicks.len() as int),
            clicked_qubits(clicks).subrange(0, spec_num_controls(gate) as int),
            clicks[0].column,
        ),
{
    let k = clicks.len() as int;
    lemma_clicks_pending(gate, clicks, pend, results, k - 1);
    let j0 = k - 1;
    assert(click_effect(pend[j0], gate, clicks[j0], pend[j0 + 1], results[j0]));
    assert(j0 + 1 == k);
    let p = pend[k - 1]->Some_0;
    let qs = clicked_qubits(clicks);
    assert(same_gate(p.gate, gate));
    assert(!p.selected_qubits@.contains(clicks[k - 1].qubit_idx)) by {
        if p.selected_qubits@.contains(clicks[k - 1].qubit_idx) {
            let j = choose|j: int| 0 <= j < p.selected_qubits@.len() && p.selected_qubits@[j] == clicks[k - 1].qubit_idx;
            assert(qs.take(k - 1)[j] == clicks[j].qubit_idx);
        }
    }
    assert(qs.take(k - 1).push(clicks[k - 1].qubit_idx) =~= qs);
}

impl EditorState {
    /// Tries to place `gate` at `target`. A one-qubit gate is placed at
    /// once. A multi-qubit gate collects one qubit per click, controls
    /// first, then targets, and is placed when it has them all; a click on
    /// a qubit it already has is ignored, and a different gate starts over.
    pub fn try_place(&mut self, gate: &GateType, target: DropTarget) -> (r: Option<GatePlacement>)
        ensures
            click_effect(old(self).multi_qubit_pending, *gate, target, final(self).multi_qubit_pending, r),
            final(self).selected_gates == old(self).selected_gates,
            final(self).editing_gate == old(self).editing_gate,
            final(self).context_menu == old(self).context_menu,
    {
        let total_needed = gate.num_qubits();
        if total_needed == 1 {
            self.multi_qubit_pending = None;
            let mut t: Vec<usize> = Vec::new();
            t.push(target.qubit_idx);
            assert(t@ =~= seq![target.qubit_idx]);
            return Some(GatePlacement { gate: gate.duplicate(), target_qubits: t, control_qubits: Vec::new(), column: target.column });
        }
        let pending_matches = match &self.multi_qubit_pending {
            Some(p) => p.gate.same_as(gate),
            None => false,
        };
        if pending_matches {
            let mut pending = match self.multi_qubit_pending.take() {
                Some(p) => p,
                None => { return None; },
            };
            if has_index(&pending.selected_qubits, target.qubit_idx) {
                self.multi_qubit_pending = Some(pending);
                return None;
            }
            pending.selected_qubits.push(target.qubit_idx);
            if pending.selected_qubits.len() == total_needed {
                let num_controls = pending.gate.num_controls();
                let n = pending.selected_qubits.len();
                let control_qubits = copy_range(&pending.selected_qubits, 0, num_controls);
                let target_qubits = copy_range(&pending.selected_qubits, num_controls, n);
                return Some(GatePlacement { gate: pending.gate, target_qubits, control_qubits, column: pending.column });
            }
            self.multi_qubit_pending = Some(pending);
            None
        } else {
            let mut sel: Vec<usize> = Vec::new();
            sel.push(target.qubit_idx);
            assert(sel@ =~= seq![target.qubit_idx]);
            self.multi_qubit_pending = Some(MultiQubitPending { gate: gate.duplicate(), selected_qubits: sel, column: target.column });
            None
        }
    }

    /// Cancels a pending multi-qubit placement.
    pub fn cancel_pending(&mut self)
        ensures
            final(self).multi_qubit_pending is None,
            final(self).selected_gates == old(self).selected_gates,
            final(self).last_selected_gate == old(self).last_selected_gate,
            final(self).clipboard == old(self).clipboard,
            final(self).context_menu == old(self).context_menu,
            final(self).editing_gate == old(self).editing_gate,
    {
        self.multi_qubit_pending = None;
    }

    /// Whether a multi-qubit placement is waiting for more qubits.
    pub fn is_awaiting_more_qubits(&self) -> (b: bool)
        ensures
            b == self.multi_qubit_pending is Some,
    {
        self.multi_qubit_pending.is_some()
    }

    fn position_of(&self, gate_index: usize) -> (r: Option<usize>)
        ensures
            r matches Some(k) ==> k < self.selected_gates@.len() && self.selected_gates@[k as int].index == gate_index,
            r is None ==> !selection(self.selected_gates@).contains(gate_index),
    {
        let mut k: usize = 0;
        while k < self.selected_gates.len()
            invariant
                k <= self.selected_gates@.len(),
                forall|j: int| 0 <= j < k ==> self.selected_gates@[j].index != gate_index,
            decreases self.selected_gates@.len() - k,
        {
            if self.selected_gates[k].index == gate_index {
                return Some(k);
            }
            k = k + 1;
        }
        None
    }

    /// Whether gate `gate_index` is selected.
    pub fn is_gate_selected(&self, gate_index: usize) -> (b: bool)
        ensures
            b == selection(self.selected_gates@).contains(gate_index),
    {
        self.position_of(gate_index).is_some()
    }

    /// Selects gate `gate_index`. With Ctrl its selection is
    /// toggled; without, it becomes the only selected gate and the last
    /// selected one. Returns whether it is now selected.
    pub fn toggle_gate_selection(&mut self, gate_index: usize, ctrl_pressed: bool) -> (selected: bool)
        ensures
            selected == selection(final(self).selected_gates@).contains(gate_index),
            ctrl_pressed ==> selection(final(self).selected_gates@) == if selection(old(self).selected_gates@).contains(gate_index) {
                selection(old(self).selected_gates@).remove(gate_index)
            } else {
                selection(old(self).selected_gates@).insert(gate_index)
            },
            ctrl_pressed ==> final(self).last_selected_gate == old(self).last_selected_gate,
            !ctrl_pressed ==> selection(final(self).selected_gates@) == set![gate_index]
                && final(self).last_selected_gate == Some(GateId { index: gate_index }),
            final(self).multi_qubit_pending == old(self).multi_qubit_pending,
            final(self).context_menu == old(self).context_menu,
            final(self).editing_gate == old(self).editing_gate,
    {
        let gate_id = GateId { index: gate_index };
        if ctrl_pressed {
            if self.position_of(gate_index).is_some() {
                let ghost before = self.selected_gates@;
                let mut kept: Vec<GateId> = Vec::new();
                let mut k: usize = 0;
                while k < self.selected_gates.len()
                    invariant
                        k <= self.selected_gates@.len(),
                        self.selected_gates@ == before,
                        forall|j: int| 0 <= j < kept@.len() ==> (#[trigger] kept@[j]).index != gate_index,
                        forall|i: usize| i != gate_index ==> (selection(kept@).contains(i)
                            <==> exists|j: int| 0 <= j < k && before[j].index == i),
                    decreases self.selected_gates@.len() - k,
                {
                    let g = self.selected_gates[k];
                    if g.index != gate_index {
                        let ghost kb = kept@;
                        kept.push(g);
                        assert forall|i: usize| i != gate_index implies (selection(kept@).contains(i)
                            <==> exists|j: int| 0 <= j < k + 1 && before[j].index == i) by {
                            if selection(kept@).contains(i) {
                                let w = choose|w: int| 0 <= w < kept@.len() && kept@[w].index == i;
                                if w < kb.len() {
                                    assert(kb[w].index == i);
                                    assert(selection(kb).contains(i));
                                }
                            }
                            if exists|j: int| 0 <= j < k + 1 && before[j].index == i {
                                let j = choose|j: int| 0 <= j < k + 1 && before[j].index == i;
                                if j < k {
                                    assert(selection(kb).contains(i));
                                    let w = choose|w: int| 0 <= w < kb.len() && kb[w].index == i;
                                    assert(kept@[w].index == i);
                                } else {
                                    assert(kept@[kb.len() as int].index == i);
                                }
                            }
                        }
                    } else {
                        assert forall|i: usize| i != gate_index implies (selection(kept@).contains(i)
                            <==> exists|j: int| 0 <= j < k + 1 && before[j].index == i) by {
                            if exists|j: int| 0 <= j < k + 1 && before[j].index == i {
                                let j = choose|j: int| 0 <= j < k + 1 && before[j].index == i;
                                assert(j < k);
                            }
                        }
                    }
                    k = k + 1;
                }
                self.selected_gates = kept;
                assert(selection(self.selected_gates@) =~= selection(before).remove(gate_index));
                false
            } else {
                let ghost before = self.selected_gates@;
                self.selected_gates.push(gate_id);
                assert(self.selected_gates@[before.len() as int].index == gate_index);
                assert forall|i: usize| selection(self.selected_gates@).contains(i) <==> selection(before).insert(gate_index).contains(i) by {
                    if selection(self.selected_gates@).contains(i) && i != gate_index {
                        let w = choose|w: int| 0 <= w < self.selected_gates@.len() && self.selected_gates@[w].index == i;
                        assert(before[w].index == i);
                    }
                    if selection(before).contains(i) {
                        let w = choose|w: int| 0 <= w < before.len() && before[w].index == i;
                        assert(self.selected_gates@[w].index == i);
                    }
                }
                assert(selection(self.selected_gates@) =~= selection(before).insert(gate_index));
                true
            }
        } else {
            self.selected_gates = Vec::new();
            self.selected_gates.push(gate_id);
            self.last_selected_gate = Some(gate_id);
            assert(self.selected_gates@[0].index == gate_index);
            assert(selection(self.selected_gates@) =~= set![gate_index]);
            true
        }
    }

    /// Clears all gate selections.
    pub fn clear_selection(&mut self)
        ensures
            selection(final(self).selected_gates@) == Set::<usize>::empty(),
            final(self).last_selected_gate is None,
            final(self).multi_qubit_pending == old(self).multi_qubit_pending,
            final(self).clipboard == old(self).clipboard,
            final(self).context_menu == old(self).context_menu,
            final(self).editing_gate == old(self).editing_gate,
    {
        self.selected_gates = Vec::new();
        self.last_selected_gate = None;
        assert(selection(self.selected_gates@) =~= Set::<usize>::empty());
    }

    /// Opens the context menu at `position` for a gate or a measurement;
    /// a gate becomes the only selected gate.
    pub fn open_context_menu(&mut self, position: (u32, u32), item_index: usize, is_measurement: bool)
        ensures
            final(self).context_menu == Some(ContextMenuState {
                position,
                item_index,
                item_type: if is_measurement { ContextMenuType::Measurement } else { ContextMenuType::Gate },
            }),
            !is_measurement ==> selection(final(self).selected_gates@) == set![item_index]
                && final(self).last_selected_gate == Some(GateId { index: item_index }),
            is_measurement ==> final(self).selected_gates == old(self).selected_gates,
            final(self).multi_qubit_pending == old(self).multi_qubit_pending,
            final(self).editing_gate == old(self).editing_gate,
    {
        let item_type = if is_measurement { ContextMenuType::Measurement } else { ContextMenuType::Gate };
        self.context_menu = Some(ContextMenuState::new(position, item_index, item_type));
        if !is_measurement {
            self.toggle_gate_selection(item_index, false);
        }
    }

    /// Closes the context menu.
    pub fn close_context_menu(&mut self)
        ensures
            final(self).context_menu is None,
            final(self).selected_gates == old(self).selected_gates,
            final(self).editing_gate == old(self).editing_gate,
            final(self).clipboard == old(self).clipboard,
            final(self).multi_qubit_pending == old(self).multi_qubit_pending,
            final(self).last_selected_gate == old(self).last_selected_gate,
    {
        self.context_menu = None;
    }

    /// Copies a gate to the clipboard, with its column and qubits.
    pub fn copy_gate(&mut self, gate: &PlacedGate)
        ensures
            final(self).clipboard matches Some(ClipboardContent::Single { gate: g, original_column, original_qubits })
                && g@ == gate@ && original_column == gate.column && original_qubits@ == all_qubits_of(gate@),
            final(self).selected_gates == old(self).selected_gates,
            final(self).last_selected_gate == old(self).last_selected_gate,
            final(self).multi_qubit_pending == old(self).multi_qubit_pending,
            final(self).context_menu == old(self).context_menu,
            final(self).editing_gate == old(self).editing_gate,
    {
        let all = gate.all_qubits();
        self.clipboard = Some(ClipboardContent::Single { gate: gate.duplicate(), original_column: gate.column, original_qubits: all });
    }

    /// Whether the clipboard holds something.
    pub fn has_clipboard_content(&self) -> (b: bool)
        ensures
            b == self.clipboard is Some,
    {
        self.clipboard.is_some()
    }

    /// Starts editing the parameters of gate `gate_index`; the context menu closes.
    pub fn start_editing_gate(&mut self, gate_index: usize)
        ensures
            final(self).editing_gate == Some(gate_index),
            final(self).context_menu is None,
            final(self).selected_gates == old(self).selected_gates,
            final(self).clipboard == old(self).clipboard,
            final(self).multi_qubit_pending == old(self).multi_qubit_pending,
            final(self).last_selected_gate == old(self).last_selected_gate,
    {
        self.editing_gate = Some(gate_index);
        self.close_context_menu();
    }

    /// Stops editing parameters.
    pub fn stop_editing_gate(&mut self)
        ensures
            final(self).editing_gate is None,
            final(self).context_menu == old(self).context_menu,
            final(self).selected_gates == old(self).selected_gates,
            final(self).clipboard == old(self).clipboard,
            final(self).multi_qubit_pending == old(self).multi_qubit_pending,
            final(self).last_selected_gate == old(self).last_selected_gate,
    {
        self.editing_gate = None;
    }

    /// The status line for the editor; `angle` renders the angle of `gate`
    /// when it is a rotation.
    pub fn status_text(&self, gate: Option<&GateType>, angle: &str) -> (s: String)
        requires
            self.multi_qubit_pending matches Some(p) ==> p.selected_qubits@.len() < usize::MAX,
        ensures
            s@ == status_line(self.multi_qubit_pending, match gate { Some(g) => Some(*g), None => None }, angle@),
    {
        match &self.multi_qubit_pending {
            Some(pending) => {
                let done = pending.selected_qubits.len();
                let total = pending.gate.num_qubits();
                let controls = pending.gate.num_controls();
                let mut s = if done < controls {
                    String::from_str("Select control qubit (")
                } else {
                    String::from_str("Select target qubit (")
                };
                push_decimal(&mut s, done + 1);
                s.append("/");
                push_decimal(&mut s, total);
                s.append(")");
                s
            },
            None => match gate {
                Some(g) => {
                    let mut s = String::from_str("Click wire to place ");
                    let name = g.display_name(angle);
                    s.append(name.as_str());
                    s
                },
                None => String::from_str("Ready"),
            },
        }
    }
}

impl EditorState {
    /// Handles a click on the circuit view: a right click on a gate opens
    /// its context menu (and selects it), a left click selects only that
    /// gate, a Ctrl+Click adds or removes it from the selection, and a left
    /// click on empty space clears the selection; other clicks do nothing.
    pub fn gate_clicked(&mut self, hit: GateHitResult, interaction: GateInteraction, position: (u32, u32))
        ensures
            (hit, interaction) matches (GateHitResult::Gate(i), GateInteraction::RightClick) ==> final(self).context_menu
                == Some(ContextMenuState { position, item_index: i, item_type: ContextMenuType::Gate })
                && selection(final(self).selected_gates@) == set![i]
                && final(self).last_selected_gate == Some(GateId { index: i }),
            (hit, interaction) matches (GateHitResult::Gate(i), GateInteraction::LeftClick) ==>
                selection(final(self).selected_gates@) == set![i]
                && final(self).last_selected_gate == Some(GateId { index: i })
                && final(self).context_menu == old(self).context_menu,
            (hit, interaction) matches (GateHitResult::Gate(i), GateInteraction::CtrlClick) ==>
                selection(final(self).selected_gates@) == (if selection(old(self).selected_gates@).contains(i) {
                    selection(old(self).selected_gates@).remove(i)
                } else {
                    selection(old(self).selected_gates@).insert(i)
                })
                && final(self).last_selected_gate == old(self).last_selected_gate
                && final(self).context_menu == old(self).context_menu,
            (hit, interaction) matches (GateHitResult::Empty, GateInteraction::LeftClick) ==>
                selection(final(self).selected_gates@) == Set::<usize>::empty()
                && final(self).last_selected_gate is None
                && final(self).context_menu == old(self).context_menu,
            hit is Empty && !(interaction is LeftClick) ==> *final(self) == *old(self),
            final(self).multi_qubit_pending == old(self).multi_qubit_pending,
            final(self).editing_gate == old(self).editing_gate,
    {
        match (hit, interaction) {
            (GateHitResult::Gate(index), GateInteraction::RightClick) => {
                self.open_context_menu(position, index, false);
            },
            (GateHitResult::Gate(index), GateInteraction::LeftClick) => {
                self.toggle_gate_selection(index, false);
            },
            (GateHitResult::Gate(index), GateInteraction::CtrlClick) => {
                self.toggle_gate_selection(index, true);
            },
            (GateHitResult::Empty, GateInteraction::LeftClick) => {
                self.clear_selection();
            },
            _ => {},
        }
    }
}

} // verus!
