//! Decisions behind the circuit view, gate palette and the step-through
//! mode: hit results, qubit extents, palette selection, step columns and
//! the cursor, and which wires share an entanglement color.
use vstd::prelude::*;
use crate::circuit::{Circuit, PlacedGateView, gate_columns, is_max_column};
use crate::gate::{GateType, same_gate, spec_display_name};

verus! {

/// Result of a gate hit-test.
#[derive(Debug, Clone, Copy, PartialEq, Eq, Structural)]
pub enum GateHitResult {
    /// A gate was hit at this index.
    Gate(usize),
    /// Empty space was clicked.
    Empty,
}

/// Interaction type for gate clicks.
#[derive(Debug, Clone, Copy, PartialEq, Eq, Structural)]
pub enum GateInteraction {
    /// Left click (selection).
    LeftClick,
    /// Right click (context menu).
    RightClick,
    /// Ctrl+Click (multi-select).
    CtrlClick,
}

/// Smallest and largest of the qubits, `(0, 0)` for none.
pub open spec fn extent(qs: Seq<usize>) -> (usize, usize)
    decreases qs.len(),
{
    if qs.len() == 0 {
        (0, 0)
    } else if qs.len() == 1 {
        (qs[0], qs[0])
    } else {
        let (lo, hi) = extent(qs.drop_last());
        (if qs.last() < lo { qs.last() } else { lo }, if qs.last() > hi { qs.last() } else { hi })
    }
}

/// The smallest and largest qubit index of a gate's qubits (`(0, 0)` when
/// there are none): the span its drawing covers.
pub fn qubit_extent(qubits: &[usize]) -> (r: (usize, usize))
    ensures
        r == extent(qubits@),
        qubits@.len() > 0 ==> qubits@.contains(r.0) && qubits@.contains(r.1),
        forall|k: int| 0 <= k < qubits@.len() ==> r.0 <= #[trigger] qubits@[k] && qubits@[k] <= r.1,
{
    if qubits.len() == 0 {
        return (0, 0);
    }
    let mut lo = qubits[0];
    let mut hi = qubits[0];
    let mut i: usize = 1;
    assert(qubits@.take(1) =~= seq![qubits@[0]]);
    assert(qubits@.take(1)[0] == lo);
    assert(qubits@.take(1).contains(lo));
    while i < qubits.len()
        invariant
            1 <= i <= qubits@.len(),
            (lo, hi) == extent(qubits@.take(i as int)),
            qubits@.take(i as int).contains(lo) && qubits@.take(i as int).contains(hi),
            forall|k: int| 0 <= k < i ==> lo <= #[trigger] qubits@[k] && qubits@[k] <= hi,
        decreases qubits.len() - i,
    {
        assert(qubits@.take(i as int + 1).drop_last() =~= qubits@.take(i as int));
        let q = qubits[i];
        if q < lo {
            lo = q;
        }
        if q > hi {
            hi = q;
        }
        i = i + 1;
        proof {
            let t = qubits@.take(i as int);
            assert(t[i - 1] == q);
            let t0 = qubits@.take(i as int - 1);
            assert forall|x: usize| t0.contains(x) implies t.contains(x) by {
                let w = choose|w: int| 0 <= w < t0.len() && #[trigger] t0[w] == x;
                assert(t[w] == x);
            }
        }
    }
    assert(qubits@.take(qubits@.len() as int) =~= qubits@);
    (lo, hi)
}

/// The label drawn in a gate's box: a rotation with its angle (`angle`,
/// one decimal), `+` for the target of a CNOT or Toffoli, otherwise the
/// display name.
pub open spec fn box_label(g: GateType, angle: Seq<char>) -> Seq<char> {
    match g {
        GateType::Cnot | GateType::Toffoli => seq!['+'],
        _ => spec_display_name(g, angle),
    }
}

/// The label drawn in a gate's box (see `box_label`).
pub fn gate_display_label(gate: &GateType, angle: &str) -> (s: String)
    ensures
        s@ == box_label(*gate, angle@),
{
    match gate {
        GateType::Cnot | GateType::Toffoli => {
            let s = String::from_str("+");
            proof { reveal_strlit("+"); }
            s
        },
        _ => gate.display_name(angle),
    }
}

/// What the palette has selected for placement.
#[derive(Debug, Clone, PartialEq)]
pub enum PaletteSelection {
    /// A gate.
    Gate(GateType),
    /// Measurement placement.
    Measurement,
}

/// The palette's selection.
#[derive(Debug)]
pub struct GatePalette {
    selected: Option<PaletteSelection>,
}

/// Pressing `item` on the palette while `current` is selected: the same
/// item deselects, another one becomes the selection.
pub open spec fn pressed(current: Option<PaletteSelection>, item: PaletteSelection) -> Option<PaletteSelection> {
    let same = match (current, item) {
        (Some(PaletteSelection::Gate(a)), PaletteSelection::Gate(b)) => same_gate(a, b),
        (Some(PaletteSelection::Measurement), PaletteSelection::Measurement) => true,
        _ => false,
    };
    if same { None } else { Some(item) }
}

impl GatePalette {
    /// The selection.
    pub closed spec fn selection(&self) -> Option<PaletteSelection> {
        self.selected
    }

    /// A palette with nothing selected.
    pub fn new() -> (p: GatePalette)
        ensures
            p.selection() is None,
    {
        GatePalette { selected: None }
    }

    /// The selected item, if any.
    pub fn selected(&self) -> (s: Option<&PaletteSelection>)
        ensures
            s == match self.selection() { Some(x) => Some(&x), None => None },
    {
        match &self.selected {
            Some(x) => Some(x),
            None => None,
        }
    }

    /// The selected gate, if a gate is selected.
    pub fn selected_gate(&self) -> (g: Option<&GateType>)
        ensures
            g == match self.selection() { Some(PaletteSelection::Gate(x)) => Some(&x), _ => None },
    {
        match &self.selected {
            Some(PaletteSelection::Gate(g)) => Some(g),
            _ => None,
        }
    }

    /// Whether measurement placement is selected.
    pub fn is_measurement_selected(&self) -> (b: bool)
        ensures
            b == (self.selection() == Some(PaletteSelection::Measurement)),
    {
        match &self.selected {
            Some(PaletteSelection::Measurement) => true,
            _ => false,
        }
    }

    /// Clears the selection (after a placement completes).
    pub fn clear_selection(&mut self)
        ensures
            final(self).selection() is None,
    {
        self.selected = None;
    }

    /// A press on a palette item: toggles it as the selection.
    pub fn press(&mut self, item: PaletteSelection)
        ensures
            final(self).selection() == pressed(old(self).selection(), item),
    {
        let same = match (&self.selected, &item) {
            (Some(PaletteSelection::Gate(a)), PaletteSelection::Gate(b)) => a.same_as(b),
            (Some(PaletteSelection::Measurement), PaletteSelection::Measurement) => true,
            _ => false,
        };
        if same {
            self.selected = None;
        } else {
            self.selected = Some(item);
        }
    }

    /// Makes `item` the selection (a drag that starts on it).
    pub fn select(&mut self, item: PaletteSelection)
        ensures
            final(self).selection() == Some(item),
    {
        self.selected = Some(item);
    }
}

/// `cols` is strictly increasing.
pub open spec fn strictly_increasing(cols: Seq<usize>) -> bool {
    forall|a: int, b: int| 0 <= a < b < cols.len() ==> cols[a] < cols[b]
}

/// The columns in which gates stand, ascending, each once.
pub open spec fn is_step_columns(gs: Seq<PlacedGateView>, cols: Seq<usize>) -> bool {
    &&& strictly_increasing(cols)
    &&& forall|c: usize| cols.contains(c) <==> gate_columns(gs).contains(c)
}

/// The distinct gate columns, ascending: the steps of the
/// step-through mode.
pub fn compute_step_columns(circuit: &Circuit) -> (cols: Vec<usize>)
    ensures
        is_step_columns(circuit@.gates, cols@),
{
    let ghost keys = gate_columns(circuit@.gates);
    let mut cols: Vec<usize> = Vec::new();
    let mut i: usize = 0;
    while i < circuit.gates.len()
        invariant
            i <= circuit.gates@.len(),
            keys == gate_columns(circuit@.gates),
            strictly_increasing(cols@),
            forall|c: usize| cols@.contains(c) <==> keys.take(i as int).contains(c),
        decreases circuit.gates.len() - i,
    {
        let c = circuit.gates[i].column;
        assert(keys[i as int] == c);
        assert(keys.take(i as int + 1) =~= keys.take(i as int).push(c));
        let mut pos: usize = 0;
        while pos < cols.len() && cols[pos] < c
            invariant
                pos <= cols@.len(),
                forall|k: int| 0 <= k < pos ==> cols@[k] < c,
            decreases cols@.len() - pos,
        {
            pos = pos + 1;
        }
        let ghost before = cols@;
        if pos < cols.len() && cols[pos] == c {
            proof {
                assert forall|x: usize| cols@.contains(x) <==> keys.take(i as int + 1).contains(x) by {
                    vstd::seq_lib::lemma_seq_contains_after_push(keys.take(i as int), c, x);
                    if x == c {
                        assert(cols@[pos as int] == c);
                    }
                }
            }
        } else {
            cols.insert(pos, c);
            proof {
                assert(cols@ == before.insert(pos as int, c));
                assert forall|k: int| pos <= k < before.len() implies before[k] > c by {
                    if k > pos {
                        assert(before[pos as int] < before[k]);
                    }
                }
                assert forall|a: int, b: int| 0 <= a < b < cols@.len() implies cols@[a] < cols@[b] by {
                    if b < pos {
                    } else if a < pos && b == pos {
                    } else if a < pos {
                        assert(cols@[b] == before[b - 1]);
                    } else if a == pos {
                        assert(cols@[b] == before[b - 1]);
                    } else {
                        assert(cols@[a] == before[a - 1] && cols@[b] == before[b - 1]);
                    }
                }
                assert forall|x: usize| cols@.contains(x) <==> keys.take(i as int + 1).contains(x) by {
                    vstd::seq_lib::lemma_seq_contains_after_push(keys.take(i as int), c, x);
                    if cols@.contains(x) {
                        let w = choose|w: int| 0 <= w < cols@.len() && cols@[w] == x;
                        if w < pos {
                            assert(before[w] == x);
                        } else if w > pos {
                            assert(before[w - 1] == x);
                        }
                    }
                    if before.contains(x) {
                        let w = choose|w: int| 0 <= w < before.len() && before[w] == x;
                        if w < pos {
                            assert(cols@[w] == x);
                        } else {
                            assert(cols@[w + 1] == x);
                        }
                    }
                    if x == c {
                        assert(cols@[pos as int] == c);
                    }
                }
            }
        }
        i = i + 1;
    }
    assert(keys.take(circuit.gates@.len() as int) =~= keys);
    cols
}

/// Where the step cursor stands: `None` outside step mode; column 0 before
/// the first step; after the last step, one past the largest column; else
/// the column of the next step.
pub open spec fn cursor_column(step_mode: bool, position: nat, cols: Seq<usize>, max_col: usize) -> Option<int> {
    if !step_mode {
        None
    } else if position == 0 {
        Some(0)
    } else if position >= cols.len() {
        Some(max_col + 1)
    } else {
        Some(cols[position as int] as int)
    }
}

/// The column at which the step cursor is drawn (gates before it have been
/// applied): see `cursor_column`, with `max_col` the circuit's largest column.
pub fn step_cursor_col(step_mode: bool, step_position: usize, step_columns: &Vec<usize>, circuit: &Circuit) -> (r: Option<usize>)
    requires
        forall|m: usize| #[trigger] is_max_column(circuit@, m) ==> m < usize::MAX,
    ensures
        exists|m: usize| is_max_column(circuit@, m)
            && (match r { Some(c) => Some(c as int), None => None }) == cursor_column(step_mode, step_position as nat, step_columns@, m),
{
    let m = circuit.max_column();
    if !step_mode {
        return None;
    }
    if step_position == 0 {
        Some(0)
    } else if step_position >= step_columns.len() {
        Some(m + 1)
    } else {
        Some(step_columns[step_position])
    }
}

/// Palette slots of the wire colors: each cluster of more than one qubit
/// gets the next of `palette_len` colors (cycling), its qubits that color;
/// other qubits none.
pub open spec fn wire_slots(n: nat, clusters: Seq<Seq<usize>>, palette_len: nat) -> Seq<Option<usize>>
    decreases clusters.len(),
{
    if clusters.len() == 0 {
        Seq::new(n, |q: int| None)
    } else {
        let prev = wire_slots(n, clusters.drop_last(), palette_len);
        let c = clusters.last();
        if c.len() > 1 {
            let slot = (big_clusters(clusters.drop_last()) % palette_len) as usize;
            Seq::new(n, |q: int| if c.contains(q as usize) { Some(slot) } else { prev[q] })
        } else {
            prev
        }
    }
}

/// How many of the clusters have more than one qubit.
pub open spec fn big_clusters(clusters: Seq<Seq<usize>>) -> nat
    decreases clusters.len(),
{
    if clusters.len() == 0 {
        0
    } else {
        big_clusters(clusters.drop_last()) + if clusters.last().len() > 1 { 1nat } else { 0nat }
    }
}

proof fn lemma_wire_slots_len(n: nat, cs: Seq<Seq<usize>>, p: nat)
    ensures
        wire_slots(n, cs, p).len() == n,
    decreases cs.len(),
{
    if cs.len() > 0 {
        lemma_wire_slots_len(n, cs.drop_last(), p);
    }
}

/// The views of the clusters.
pub open spec fn cluster_views(cs: Seq<Vec<usize>>) -> Seq<Seq<usize>> {
    cs.map_values(|c: Vec<usize>| c@)
}

/// For each of `n` wires, the palette slot of its entanglement color, if
/// it belongs to a cluster of more than one qubit (see `wire_slots`).
pub fn entanglement_wire_colors(n: usize, clusters: &Vec<Vec<usize>>, palette_len: usize) -> (r: Vec<Option<usize>>)
    requires
        palette_len > 0,
        forall|i: int, k: int| 0 <= i < clusters@.len() && 0 <= k < clusters@[i]@.len() ==> #[trigger] clusters@[i]@[k] < n,
    ensures
        r@ == wire_slots(n as nat, cluster_views(clusters@), palette_len as nat),
{
    let ghost cv = cluster_views(clusters@);
    let mut r: Vec<Option<usize>> = Vec::new();
    let mut q: usize = 0;
    while q < n
        invariant
            q <= n,
            r@ == Seq::new(q as nat, |x: int| None::<usize>),
        decreases n - q,
    {
        r.push(None);
        q = q + 1;
        assert(r@ =~= Seq::new(q as nat, |x: int| None::<usize>));
    }
    assert(r@ =~= wire_slots(n as nat, cv.take(0), palette_len as nat));
    let mut color_idx: usize = 0;
    let mut i: usize = 0;
    while i < clusters.len()
        invariant
            i <= clusters@.len(),
            palette_len > 0,
            cv == cluster_views(clusters@),
            forall|a: int, k: int| 0 <= a < clusters@.len() && 0 <= k < clusters@[a]@.len() ==> #[trigger] clusters@[a]@[k] < n,
            r@ == wire_slots(n as nat, cv.take(i as int), palette_len as nat),
            color_idx == big_clusters(cv.take(i as int)),
            color_idx <= i,
        decreases clusters.len() - i,
    {
        assert(cv.take(i as int + 1).drop_last() =~= cv.take(i as int));
        assert(cv.take(i as int + 1).last() == clusters@[i as int]@);
        let c = &clusters[i];
        proof { lemma_wire_slots_len(n as nat, cv.take(i as int), palette_len as nat); }
        if c.len() > 1 {
            let slot = color_idx % palette_len;
            let ghost prev = r@;
            let mut k: usize = 0;
            while k < c.len()
                invariant
                    k <= c@.len(),
                    prev.len() == n,
                    r@.len() == n,
                    forall|m: int| 0 <= m < c@.len() ==> #[trigger] c@[m] < n,
                    r@ == Seq::new(n as nat, |x: int| if c@.take(k as int).contains(x as usize) { Some(slot) } else { prev[x] }),
                decreases c.len() - k,
            {
                let ghost before = r@;
                r.set(c[k], Some(slot));
                proof {
                    assert(c@.take(k as int + 1) =~= c@.take(k as int).push(c@[k as int]));
                    assert forall|x: int| 0 <= x < n implies #[trigger] r@[x] == (if c@.take(k as int + 1).contains(x as usize) { Some(slot) } else { prev[x] }) by {
                        vstd::seq_lib::lemma_seq_contains_after_push(c@.take(k as int), c@[k as int], x as usize);
                        assert(before[x] == (if c@.take(k as int).contains(x as usize) { Some(slot) } else { prev[x] }));
                    }
                    assert(r@ =~= Seq::new(n as nat, |x: int| if c@.take(k as int + 1).contains(x as usize) { Some(slot) } else { prev[x] }));
                }
                k = k + 1;
            }
            assert(c@.take(c@.len() as int) =~= c@);
            color_idx = color_idx + 1;
        }
        i = i + 1;
    }
    assert(cv.take(clusters@.len() as int) =~= cv);
    r
}


/// Only the target of a CNOT or Toffoli is drawn as `+`; every other
/// built-in gate is drawn with its display name.
pub proof fn lemma_box_label(g: GateType, angle: Seq<char>)
    requires
        !(g is Custom),
    ensures
        (box_label(g, angle) == seq!['+']) == (g is Cnot || g is Toffoli),
        !(g is Cnot || g is Toffoli) ==> box_label(g, angle) == spec_display_name(g, angle),
{
    if !(g is Cnot || g is Toffoli) && box_label(g, angle) == seq!['+'] {
        let l = box_label(g, angle);
        assert(l.len() == 1);
        assert(l[0] == '+');
    }
}

} // verus!
