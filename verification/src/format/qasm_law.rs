//! The OpenQASM round trip: what importing the exported text of a circuit
//! gives back.
use vstd::prelude::*;
use crate::circuit::{has_default_wires, lemma_validate_ok, CircuitView, Measurement, PlacedGateView, circuit_valid, gate_columns, placement_ok};
use crate::format::qasm::{
    ImportState, QasmError, QasmImportResult, QregModel, barrier_steps, bumped, gate_lines, gate_mapping, import_outcome,
    import_steps, import_stmt, initial_state, latest, line_block, measure_lines, measurement_columns, named, place_gate,
    qasm_registers, qasm_text, qreg_table, qreg_total, resolve, resolve_all, stmt_views, string_views,
};
use crate::format::qasm_parse::{QasmProgram, parsed_program, StmtView, parse_texts, statement_at, statement_texts, warnings_cuttable};
use crate::format::qasm_roundtrip::{
    gate_stmt_view, q_refs, qasm_name, qasm_qubits, gate_text, good_line, line_bodies, lemma_gate_line, lemma_gate_text_stmt, lemma_header_stmt,
    lemma_include_stmt, lemma_lines_pieces, lemma_measure_line, lemma_measure_stmt, lemma_push_newline, lemma_reg_decl_stmts,
    lemma_registers_pieces, lemma_without_comments_plain, measure_body, pieces, plain_gate, register_texts,
};
use crate::gate::{GateType, spec_num_controls, spec_num_qubits};
use crate::seqs::lemma_first_match_at;
use crate::order::{is_stable_order, lemma_stable_order_exists, stable_order};

verus! {

/// The gates of a circuit in the order the export writes them: by
/// column, ties in insertion order.
pub open spec fn export_order(c: CircuitView) -> Seq<PlacedGateView> {
    let ord = stable_order(gate_columns(c.gates));
    Seq::new(c.gates.len(), |k: int| c.gates[ord[k] as int])
}

/// The measurements of a circuit in the order the export writes them.
pub open spec fn export_measurements(c: CircuitView) -> Seq<Measurement> {
    let ord = stable_order(measurement_columns(c.measurements));
    Seq::new(c.measurements.len(), |k: int| c.measurements[ord[k] as int])
}

/// Every gate is of a kind the export writes by name, with the qubit
/// counts its kind needs.
pub open spec fn plain_gates(gs: Seq<PlacedGateView>) -> bool {
    forall|i: int| 0 <= i < gs.len() ==> {
        &&& plain_gate((#[trigger] gs[i]).gate)
        &&& gs[i].targets.len() == spec_num_qubits(gs[i].gate) - spec_num_controls(gs[i].gate)
        &&& gs[i].controls.len() == spec_num_controls(gs[i].gate)
    }
}

proof fn lemma_gate_lines(gs: Seq<PlacedGateView>, angles: Seq<Seq<char>>, ord: Seq<usize>)
    requires
        plain_gates(gs),
        forall|k: int| 0 <= k < ord.len() ==> (#[trigger] ord[k]) < gs.len(),
    ensures
        gate_lines(gs, angles, ord) == Seq::new(ord.len(), |k: int| gate_text(gs[ord[k] as int]) + ";"@),
    decreases ord.len(),
{
    if ord.len() > 0 {
        let p = ord.drop_last();
        assert forall|k: int| 0 <= k < p.len() implies (#[trigger] p[k]) < gs.len() by {
            assert(p[k] == ord[k]);
        }
        lemma_gate_lines(gs, angles, p);
        let g = gs[ord.last() as int];
        lemma_gate_line(g, angles[ord.last() as int]);
        assert(gate_lines(gs, angles, ord) =~= Seq::new(ord.len(), |k: int| gate_text(gs[ord[k] as int]) + ";"@));
    } else {
        assert(gate_lines(gs, angles, ord) =~= Seq::new(ord.len(), |k: int| gate_text(gs[ord[k] as int]) + ";"@));
    }
}

/// Statement texts that all read as statements give those statements and
/// no warning.
pub proof fn lemma_parse_all(ts: Seq<Seq<char>>, sv: Seq<StmtView>)
    requires
        ts.len() == sv.len(),
        forall|i: int| 0 <= i < ts.len() ==> statement_at(#[trigger] ts[i]) == Some(sv[i]),
    ensures
        parse_texts(ts) == (sv, Seq::<Seq<char>>::empty()),
    decreases ts.len(),
{
    if ts.len() > 0 {
        assert forall|i: int| 0 <= i < ts.len() - 1 implies statement_at(#[trigger] ts.drop_last()[i]) == Some(sv.drop_last()[i]) by {
            assert(ts.drop_last()[i] == ts[i]);
        }
        lemma_parse_all(ts.drop_last(), sv.drop_last());
        assert(statement_at(ts[ts.len() - 1]) == Some(sv[sv.len() - 1]));
        assert(sv.drop_last().push(sv.last()) =~= sv);
    }
}

/// The statement texts of the export: the header and registers, one per
/// gate in export order, one per measurement in export order.
pub open spec fn export_texts(c: CircuitView) -> Seq<Seq<char>> {
    register_texts(c.qubits.len(), c.measurements.len())
        + Seq::new(c.gates.len(), |k: int| gate_text(export_order(c)[k]))
        + Seq::new(c.measurements.len(), |k: int| measure_body(export_measurements(c)[k].qubit_id, k as nat))
}

proof fn lemma_lines_last(x: Seq<char>, lines: Seq<Seq<char>>)
    requires
        lines.len() > 0,
        good_line(lines.last()),
    ensures
        (x + line_block(lines)).len() > 0,
        (x + line_block(lines)).last() == ';',
{
    let l = lines.last();
    assert(line_block(lines) == line_block(lines.drop_last()) + "\n"@ + l);
    assert((x + line_block(lines)).last() == l.last());
}

/// The export's text holds no comment, and its statement texts are those
/// of `export_texts`.
pub proof fn lemma_export_texts(c: CircuitView, angles: Seq<Seq<char>>)
    requires
        plain_gates(c.gates),
        c.qubits.len() <= usize::MAX,
        c.gates.len() <= usize::MAX,
        c.measurements.len() < usize::MAX,
    ensures
        statement_texts(qasm_text(c, angles)) == export_texts(c),
{
    let n = c.qubits.len();
    let m = c.measurements.len();
    let gord = stable_order(gate_columns(c.gates));
    let mord = stable_order(measurement_columns(c.measurements));
    lemma_stable_order_exists(gate_columns(c.gates));
    lemma_stable_order_exists(measurement_columns(c.measurements));
    let gl = gate_lines(c.gates, angles, gord);
    let ml = measure_lines(c.measurements, mord);
    lemma_gate_lines(c.gates, angles, gord);
    let og = export_order(c);
    let om = export_measurements(c);
    assert forall|i: int| 0 <= i < gl.len() implies good_line(#[trigger] gl[i]) by {
        lemma_gate_line(og[i], angles[gord[i] as int]);
        reveal_strlit(";");
        assert((gate_text(og[i]) + ";"@).drop_last() =~= gate_text(og[i]));
    }
    assert(line_bodies(gl) =~= Seq::new(c.gates.len(), |k: int| gate_text(og[k]))) by {
        assert forall|i: int| 0 <= i < gl.len() implies #[trigger] line_bodies(gl)[i] == gate_text(og[i]) by {
            reveal_strlit(";");
            assert((gate_text(og[i]) + ";"@).drop_last() =~= gate_text(og[i]));
        }
    }
    assert forall|i: int| 0 <= i < ml.len() implies good_line(#[trigger] ml[i]) && ml[i].drop_last() == measure_body(om[i].qubit_id, i as nat) by {
        lemma_measure_line(om[i].qubit_id, i as usize);
        reveal_strlit(";");
        assert((measure_body(om[i].qubit_id, i as nat) + ";"@).drop_last() =~= measure_body(om[i].qubit_id, i as nat));
    }
    assert(line_bodies(ml) =~= Seq::new(m, |k: int| measure_body(om[k].qubit_id, k as nat)));
    let regs = qasm_registers(n, m);
    lemma_registers_pieces(n as usize, m as usize);
    lemma_push_newline(regs);
    let y = regs.push('\n');
    lemma_lines_pieces(y, gl);
    let z = y + line_block(gl);
    let text = qasm_text(c, angles);
    reveal_strlit("\n");
    if gl.len() == 0 && ml.len() == 0 {
        assert(text == regs);
        assert(export_texts(c) =~= register_texts(n, m));
        lemma_without_comments_plain(text);
    } else if ml.len() == 0 {
        assert(text =~= z);
        lemma_lines_last(y, gl);
        assert(export_texts(c) =~= register_texts(n, m) + line_bodies(gl));
        lemma_without_comments_plain(text);
    } else {
        lemma_push_newline(z);
        lemma_lines_pieces(z.push('\n'), ml);
        lemma_lines_last(z.push('\n'), ml);
        assert(text =~= z.push('\n') + line_block(ml));
        assert(export_texts(c) =~= register_texts(n, m) + line_bodies(gl) + line_bodies(ml));
        lemma_without_comments_plain(text);
    }
    reveal(pieces);
}


/// The statements the header and register declarations read as.
pub open spec fn register_stmts(n: nat, m: nat) -> Seq<StmtView> {
    seq![StmtView::Header("2.0"@), StmtView::Include("qelib1.inc"@), StmtView::Qreg(seq!['q'], n as usize)]
        + if m > 0 { seq![StmtView::Creg(seq!['c'], m as usize)] } else { Seq::empty() }
}

/// The statement a measurement line of the export reads as.
pub open spec fn measure_stmt(q: usize, k: nat) -> StmtView {
    StmtView::Measure { qubit: (seq!['q'], q), cbit: (seq!['c'], k as usize) }
}

/// The statements the export's text reads as.
pub open spec fn export_stmts(c: CircuitView) -> Seq<StmtView> {
    register_stmts(c.qubits.len(), c.measurements.len())
        + Seq::new(c.gates.len(), |k: int| gate_stmt_view(export_order(c)[k]))
        + Seq::new(c.measurements.len(), |k: int| measure_stmt(export_measurements(c)[k].qubit_id, k as nat))
}

/// The export order lists each gate, each measurement, once.
pub proof fn lemma_export_orders(c: CircuitView)
    requires
        c.gates.len() <= usize::MAX,
        c.measurements.len() <= usize::MAX,
    ensures
        is_stable_order(gate_columns(c.gates), stable_order(gate_columns(c.gates))),
        is_stable_order(measurement_columns(c.measurements), stable_order(measurement_columns(c.measurements))),
        forall|k: int| 0 <= k < c.gates.len() ==> stable_order(gate_columns(c.gates))[k] < c.gates.len()
            && #[trigger] export_order(c)[k] == c.gates[stable_order(gate_columns(c.gates))[k] as int],
        forall|k: int| 0 <= k < c.measurements.len() ==> stable_order(measurement_columns(c.measurements))[k] < c.measurements.len()
            && #[trigger] export_measurements(c)[k] == c.measurements[stable_order(measurement_columns(c.measurements))[k] as int],
{
    lemma_stable_order_exists(gate_columns(c.gates));
    lemma_stable_order_exists(measurement_columns(c.measurements));
}

proof fn lemma_register_stmts(n: usize, m: usize)
    ensures
        register_texts(n as nat, m as nat).len() == register_stmts(n as nat, m as nat).len(),
        forall|i: int| 0 <= i < register_texts(n as nat, m as nat).len()
            ==> statement_at(#[trigger] register_texts(n as nat, m as nat)[i]) == Some(register_stmts(n as nat, m as nat)[i]),
{
    lemma_header_stmt();
    lemma_include_stmt();
    lemma_reg_decl_stmts(n, m);
    let rt = register_texts(n as nat, m as nat);
    let rs = register_stmts(n as nat, m as nat);
    assert forall|i: int| 0 <= i < rt.len() implies statement_at(#[trigger] rt[i]) == Some(rs[i]) by {
        if i == 0 {} else if i == 1 {} else if i == 2 {} else {}
    }
}

proof fn lemma_gate_stmts(c: CircuitView)
    requires
        plain_gates(c.gates),
        c.gates.len() <= usize::MAX,
        c.measurements.len() <= usize::MAX,
    ensures
        forall|k: int| 0 <= k < c.gates.len() ==> statement_at(#[trigger] gate_text(export_order(c)[k])) == Some(gate_stmt_view(export_order(c)[k])),
{
    lemma_export_orders(c);
    let og = export_order(c);
    let gord = stable_order(gate_columns(c.gates));
    assert forall|k: int| 0 <= k < c.gates.len() implies statement_at(#[trigger] gate_text(og[k])) == Some(gate_stmt_view(og[k])) by {
        assert(og[k] == c.gates[gord[k] as int]);
        lemma_gate_text_stmt(og[k]);
    }
}

proof fn lemma_measure_stmts(c: CircuitView)
    requires
        c.measurements.len() < usize::MAX,
    ensures
        forall|k: int| 0 <= k < c.measurements.len() ==>
            statement_at(#[trigger] measure_body(export_measurements(c)[k].qubit_id, k as nat)) == Some(measure_stmt(export_measurements(c)[k].qubit_id, k as nat)),
{
    let om = export_measurements(c);
    assert forall|k: int| 0 <= k < c.measurements.len() implies
        statement_at(#[trigger] measure_body(om[k].qubit_id, k as nat)) == Some(measure_stmt(om[k].qubit_id, k as nat)) by {
        lemma_measure_stmt(om[k].qubit_id, k as usize);
    }
}

/// Each statement text of the export reads as its statement.
pub proof fn lemma_export_stmts(c: CircuitView)
    requires
        plain_gates(c.gates),
        c.qubits.len() <= usize::MAX,
        c.gates.len() <= usize::MAX,
        c.measurements.len() < usize::MAX,
    ensures
        export_texts(c).len() == export_stmts(c).len(),
        forall|i: int| 0 <= i < export_texts(c).len() ==> statement_at(#[trigger] export_texts(c)[i]) == Some(export_stmts(c)[i]),
{
    let n = c.qubits.len();
    let m = c.measurements.len();
    let og = export_order(c);
    let om = export_measurements(c);
    let rt = register_texts(n, m);
    let rs = register_stmts(n, m);
    let gt = Seq::new(c.gates.len(), |k: int| gate_text(og[k]));
    let gs = Seq::new(c.gates.len(), |k: int| gate_stmt_view(og[k]));
    let mt = Seq::new(m, |k: int| measure_body(om[k].qubit_id, k as nat));
    let ms = Seq::new(m, |k: int| measure_stmt(om[k].qubit_id, k as nat));
    lemma_register_stmts(n as usize, m as usize);
    lemma_gate_stmts(c);
    lemma_measure_stmts(c);
    let t = export_texts(c);
    let sv = export_stmts(c);
    assert(t == rt + gt + mt);
    assert(sv == rs + gs + ms);
    assert forall|i: int| 0 <= i < t.len() implies statement_at(#[trigger] t[i]) == Some(sv[i]) by {
        if i < rt.len() {
            assert(t[i] == rt[i] && sv[i] == rs[i]);
        } else if i < rt.len() + gt.len() {
            let k = i - rt.len();
            assert(t[i] == gt[k] && sv[i] == gs[k]);
            assert(statement_at(gate_text(og[k])) == Some(gate_stmt_view(og[k])));
        } else {
            let k = i - rt.len() - gt.len();
            assert(t[i] == mt[k] && sv[i] == ms[k]);
            assert(statement_at(measure_body(om[k].qubit_id, k as nat)) == Some(measure_stmt(om[k].qubit_id, k as nat)));
        }
    }
}


/// Gates placed one after another, each as early as all its qubits are
/// free: their columns, and the next free column of each of `n` qubits.
pub open spec fn asap_layout(gs: Seq<PlacedGateView>, n: nat) -> (Seq<usize>, Seq<usize>)
    decreases gs.len(),
{
    if gs.len() == 0 {
        (Seq::empty(), Seq::new(n, |q: int| 0usize))
    } else {
        let (cols, nc) = asap_layout(gs.drop_last(), n);
        let qs = gs.last().targets + gs.last().controls;
        let col = latest(nc, qs);
        (cols.push(col as usize), bumped(nc, qs, (col + 1) as usize))
    }
}

proof fn lemma_asap_len(gs: Seq<PlacedGateView>, n: nat)
    ensures
        asap_layout(gs, n).0.len() == gs.len(),
        asap_layout(gs, n).1.len() == n,
    decreases gs.len(),
{
    if gs.len() > 0 {
        lemma_asap_len(gs.drop_last(), n);
    }
}

/// A gate as the import places it at column `col`.
pub open spec fn imported(g: PlacedGateView, col: usize) -> PlacedGateView {
    PlacedGateView { gate: g.gate, targets: g.targets, controls: g.controls, column: col, parameters: Seq::empty() }
}

/// The import's register table for the export of `n` qubits.
pub open spec fn q_table(n: nat) -> Seq<QregModel> {
    seq![(seq!['q'], 0nat, n)]
}

proof fn lemma_resolve_q(n: nat, q: usize)
    requires
        q < n,
    ensures
        resolve(q_table(n), (seq!['q'], q)) == Ok::<usize, Seq<char>>(q),
{
    let t = q_table(n);
    lemma_first_match_at(t, named(seq!['q']), 0);
}

proof fn lemma_resolve_all_q(n: nat, qs: Seq<usize>)
    requires
        forall|k: int| 0 <= k < qs.len() ==> #[trigger] qs[k] < n,
    ensures
        resolve_all(q_table(n), q_refs(qs)) == Ok::<Seq<usize>, Seq<char>>(qs),
    decreases qs.len(),
{
    if qs.len() > 0 {
        assert forall|k: int| 0 <= k < qs.drop_last().len() implies #[trigger] qs.drop_last()[k] < n by {
            assert(qs.drop_last()[k] == qs[k]);
        }
        lemma_resolve_all_q(n, qs.drop_last());
        assert(q_refs(qs).drop_last() =~= q_refs(qs.drop_last()));
        assert(qs.last() < n);
        lemma_resolve_q(n, qs.last());
        let rs = q_refs(qs);
        assert(rs.last() == (seq!['q'], qs.last()));
        assert(resolve_all(q_table(n), rs.drop_last()) == Ok::<Seq<usize>, Seq<char>>(qs.drop_last()));
        assert(resolve(q_table(n), rs.last()) == Ok::<usize, Seq<char>>(qs.last()));
        assert(resolve_all(q_table(n), rs) == Ok::<Seq<usize>, Seq<char>>(qs.drop_last().push(qs.last())));
        assert(qs.drop_last().push(qs.last()) =~= qs);
    } else {
        assert(q_refs(qs) =~= Seq::<(Seq<char>, usize)>::empty());
        assert(qs =~= Seq::<usize>::empty());
    }
}

proof fn lemma_mapping(g: PlacedGateView, a: Seq<u64>)
    requires
        plain_gate(g.gate),
        !(g.gate is Barrier),
        g.targets.len() == spec_num_qubits(g.gate) - spec_num_controls(g.gate),
        g.controls.len() == spec_num_controls(g.gate),
    ensures
        gate_mapping(qasm_name(g.gate), a, qasm_qubits(g)) == Ok::<(GateType, Seq<usize>, Seq<usize>), Seq<char>>((g.gate, g.targets, g.controls)),
{
    reveal_strlit("h");
    reveal_strlit("x");
    reveal_strlit("y");
    reveal_strlit("z");
    reveal_strlit("s");
    reveal_strlit("t");
    reveal_strlit("id");
    reveal_strlit("rx");
    reveal_strlit("ry");
    reveal_strlit("rz");
    reveal_strlit("p");
    reveal_strlit("u1");
    reveal_strlit("cx");
    reveal_strlit("CX");
    reveal_strlit("cz");
    reveal_strlit("swap");
    reveal_strlit("ccx");
    let name = qasm_name(g.gate);
    let qs = qasm_qubits(g);
    assert("id"@[0] == 'i' && "rx"@[0] == 'r' && "ry"@[0] == 'r' && "rz"@[0] == 'r' && "u1"@[0] == 'u');
    assert("cx"@[0] == 'c' && "cz"@[0] == 'c' && "CX"@[0] == 'C' && "cx"@[1] == 'x' && "cz"@[1] == 'z');
    assert("swap"@[0] == 's' && "ccx"@[0] == 'c');
    assert(name.len() >= 1 && (name[0] == 'h' || name[0] == 'x' || name[0] == 'y' || name[0] == 'z' || name[0] == 's'
        || name[0] == 't' || name[0] == 'c'));
    assert(name.len() >= 2 ==> name[1] == 'x' || name[1] == 'z' || name[1] == 'w' || name[1] == 'c');
    match g.gate {
        GateType::Cnot => {
            assert(g.targets =~= seq![qs[1]]);
            assert(g.controls =~= seq![qs[0]]);
        },
        GateType::Cz => {
            assert(g.targets =~= seq![qs[1]]);
            assert(g.controls =~= seq![qs[0]]);
        },
        GateType::Swap => {
            assert(g.targets =~= seq![qs[0], qs[1]]);
            assert(g.controls =~= Seq::<usize>::empty());
        },
        GateType::Toffoli => {
            assert(g.targets =~= seq![qs[2]]);
            assert(g.controls =~= seq![qs[0], qs[1]]);
        },
        _ => {
            assert(g.targets =~= seq![qs[0]]);
            assert(g.controls =~= Seq::<usize>::empty());
        },
    }
}

/// `import_steps` on one more statement.
proof fn lemma_steps_next(sv: Seq<StmtView>, av: Seq<Seq<u64>>, t: Seq<QregModel>, n: usize, st0: ImportState, j: int)
    requires
        0 <= j < sv.len(),
    ensures
        import_steps(sv.take(j + 1), av, t, n, st0) == match import_steps(sv.take(j), av, t, n, st0) {
            Err(e) => Err(e),
            Ok(st) => import_stmt(st, t, n, sv[j], av[j]),
        },
{
    assert(sv.take(j + 1).drop_last() =~= sv.take(j));
    assert(sv.take(j + 1).last() == sv[j]);
}

/// The import's state after the export's first `k` gates.
pub open spec fn gates_state(og: Seq<PlacedGateView>, n: nat, k: int) -> ImportState {
    ImportState {
        gates: Seq::new(k as nat, |i: int| imported(og[i], asap_layout(og.take(k), n).0[i])),
        measurements: Seq::empty(),
        next_col: asap_layout(og.take(k), n).1,
        warnings: Seq::empty(),
    }
}

proof fn lemma_gate_step(og: Seq<PlacedGateView>, n: usize, k: int, a: Seq<u64>)
    requires
        0 <= k < og.len(),
        plain_gates(og),
        forall|i: int| 0 <= i < og.len() ==> placement_ok((#[trigger] og[i]).gate, og[i].targets, og[i].controls, n as nat),
    ensures
        import_stmt(gates_state(og, n as nat, k), q_table(n as nat), n, gate_stmt_view(og[k]), a)
            == Ok::<ImportState, Seq<char>>(gates_state(og, n as nat, k + 1)),
{
    let g = og[k];
    let st = gates_state(og, n as nat, k);
    let qs = qasm_qubits(g);
    let prev = og.take(k);
    assert(og.take(k + 1).drop_last() =~= prev);
    assert(og.take(k + 1).last() == g);
    lemma_asap_len(prev, n as nat);
    lemma_asap_len(og.take(k + 1), n as nat);
    let (cols, nc) = asap_layout(prev, n as nat);
    let both = g.targets + g.controls;
    let col = latest(nc, both);
    let st2 = gates_state(og, n as nat, k + 1);
    assert(st2.next_col == bumped(nc, both, (col + 1) as usize));
    assert(st2.gates =~= st.gates.push(imported(g, col as usize)));
    assert(placement_ok(g.gate, g.targets, g.controls, n as nat));
    assert(forall|i: int| 0 <= i < qs.len() ==> #[trigger] qs[i] < n) by {
        assert forall|i: int| 0 <= i < qs.len() implies #[trigger] qs[i] < n by {
            if g.gate is Swap && i == 1 {
                assert(g.targets[1] < n);
            } else if g.gate is Toffoli && i == 1 {
                assert(g.controls[1] < n);
            } else if (g.gate is Cnot || g.gate is Cz || g.gate is Toffoli) && i == 0 {
                assert(g.controls[0] < n);
            } else if g.gate is Toffoli {
                assert(g.targets[0] < n);
            } else if g.gate is Cnot || g.gate is Cz {
                assert(g.targets[0] < n);
            } else {
                assert(g.targets[0] < n);
            }
        }
    }
    lemma_resolve_all_q(n as nat, qs);
    if g.gate is Barrier {
        let t0 = g.targets[0];
        assert(qs =~= seq![t0]);
        assert(q_refs(qs) =~= seq![(seq!['q'], t0)]);
        assert(g.controls =~= Seq::<usize>::empty());
        assert(both =~= seq![t0]);
        lemma_resolve_q(n as nat, t0);
        assert(q_refs(qs).drop_last() =~= Seq::<(Seq<char>, usize)>::empty());
        assert(barrier_steps(st, q_table(n as nat), q_refs(qs).drop_last()) == Ok::<ImportState, Seq<char>>(st));
        assert(latest(nc, seq![t0]) == nc[t0 as int]) by {
            assert(seq![t0].drop_last() =~= Seq::<usize>::empty());
            assert(latest(nc, Seq::<usize>::empty()) == 0);
            assert(seq![t0].last() == t0);
        }
        assert(bumped(nc, both, (col + 1) as usize) =~= nc.update(t0 as int, (col + 1) as usize));
        assert(imported(g, col as usize) == PlacedGateView {
            gate: GateType::Barrier,
            targets: seq![t0],
            controls: Seq::empty(),
            column: nc[t0 as int],
            parameters: Seq::empty(),
        });
    } else {
        lemma_mapping(g, a);
        lemma_validate_ok(g.gate, g.targets, g.controls, n);
        assert(place_gate(st, g.gate, g.targets, g.controls, n) == Ok::<ImportState, Seq<char>>(st2));
    }
}


proof fn lemma_phase_regs(sv: Seq<StmtView>, av: Seq<Seq<u64>>, t: Seq<QregModel>, n: usize, st0: ImportState, j: int)
    requires
        0 <= j <= sv.len(),
        forall|i: int| 0 <= i < j ==> (#[trigger] sv[i] is Header || sv[i] is Include || sv[i] is Qreg || sv[i] is Creg),
    ensures
        import_steps(sv.take(j), av, t, n, st0) == Ok::<ImportState, Seq<char>>(st0),
    decreases j,
{
    if j > 0 {
        lemma_phase_regs(sv, av, t, n, st0, j - 1);
        lemma_steps_next(sv, av, t, n, st0, j - 1);
        assert(sv[j - 1] is Header || sv[j - 1] is Include || sv[j - 1] is Qreg || sv[j - 1] is Creg);
    } else {
        assert(sv.take(0) =~= Seq::<StmtView>::empty());
    }
}

proof fn lemma_phase_gates(sv: Seq<StmtView>, av: Seq<Seq<u64>>, n: usize, st0: ImportState, og: Seq<PlacedGateView>, base: int, k: int)
    requires
        0 <= base,
        0 <= k <= og.len(),
        base + og.len() <= sv.len(),
        import_steps(sv.take(base), av, q_table(n as nat), n, st0) == Ok::<ImportState, Seq<char>>(gates_state(og, n as nat, 0)),
        forall|i: int| 0 <= i < og.len() ==> sv[base + i] == gate_stmt_view(#[trigger] og[i]),
        plain_gates(og),
        forall|i: int| 0 <= i < og.len() ==> placement_ok((#[trigger] og[i]).gate, og[i].targets, og[i].controls, n as nat),
    ensures
        import_steps(sv.take(base + k), av, q_table(n as nat), n, st0) == Ok::<ImportState, Seq<char>>(gates_state(og, n as nat, k)),
    decreases k,
{
    if k > 0 {
        lemma_phase_gates(sv, av, n, st0, og, base, k - 1);
        lemma_steps_next(sv, av, q_table(n as nat), n, st0, base + k - 1);
        assert(sv[base + (k - 1)] == gate_stmt_view(og[k - 1]));
        lemma_gate_step(og, n, k - 1, av[base + k - 1]);
    }
}

proof fn lemma_phase_measures(sv: Seq<StmtView>, av: Seq<Seq<u64>>, n: usize, st0: ImportState, qids: Seq<usize>, start: int, sts: ImportState, k: int)
    requires
        0 <= start,
        0 <= k <= qids.len(),
        start + qids.len() <= sv.len(),
        import_steps(sv.take(start), av, q_table(n as nat), n, st0) == Ok::<ImportState, Seq<char>>(sts),
        sts.next_col.len() == n,
        forall|i: int| 0 <= i < qids.len() ==> sv[start + i] == measure_stmt(#[trigger] qids[i], i as nat),
        forall|i: int| 0 <= i < qids.len() ==> #[trigger] qids[i] < n,
    ensures
        import_steps(sv.take(start + k), av, q_table(n as nat), n, st0) matches Ok(st) && {
            &&& st.gates == sts.gates
            &&& st.warnings == sts.warnings
            &&& st.next_col.len() == n
            &&& st.measurements == sts.measurements + Seq::new(k as nat, |i: int| st.measurements[sts.measurements.len() + i])
            &&& st.measurements.len() == sts.measurements.len() + k
            &&& forall|i: int| 0 <= i < k ==> (#[trigger] st.measurements[sts.measurements.len() + i]).qubit_id == qids[i]
        },
    decreases k,
{
    if k > 0 {
        lemma_phase_measures(sv, av, n, st0, qids, start, sts, k - 1);
        lemma_steps_next(sv, av, q_table(n as nat), n, st0, start + k - 1);
        assert(sv[start + (k - 1)] == measure_stmt(qids[k - 1], (k - 1) as nat));
        lemma_resolve_q(n as nat, qids[k - 1]);
        let st = import_steps(sv.take(start + k - 1), av, q_table(n as nat), n, st0)->Ok_0;
        let st2 = import_steps(sv.take(start + k), av, q_table(n as nat), n, st0)->Ok_0;
        assert(st2.measurements == st.measurements.push(Measurement { qubit_id: qids[k - 1], column: st.next_col[qids[k - 1] as int] }));
        let b = sts.measurements.len();
        assert forall|i: int| 0 <= i < k implies (#[trigger] st2.measurements[b + i]).qubit_id == qids[i] by {
            if i < k - 1 {
                assert(st2.measurements[b + i] == st.measurements[b + i]);
            }
        }
        assert(st2.measurements =~= sts.measurements + Seq::new(k as nat, |i: int| st2.measurements[b + i]));
    } else {
        assert(sts.measurements =~= sts.measurements + Seq::new(0nat, |i: int| sts.measurements[sts.measurements.len() + i]));
    }
}

proof fn lemma_no_qreg_suffix(a: Seq<StmtView>, b: Seq<StmtView>)
    requires
        forall|i: int| 0 <= i < b.len() ==> !(#[trigger] b[i] is Qreg),
    ensures
        qreg_total(a + b) == qreg_total(a),
        qreg_table(a + b) == qreg_table(a),
    decreases b.len(),
{
    if b.len() > 0 {
        assert forall|i: int| 0 <= i < b.drop_last().len() implies !(#[trigger] b.drop_last()[i] is Qreg) by {
            assert(b.drop_last()[i] == b[i]);
        }
        lemma_no_qreg_suffix(a, b.drop_last());
        assert((a + b).drop_last() =~= a + b.drop_last());
        assert((a + b).last() == b[b.len() - 1]);
    } else {
        assert(a + b =~= a);
    }
}

proof fn lemma_export_qregs(c: CircuitView)
    requires
        c.qubits.len() <= usize::MAX,
    ensures
        qreg_total(export_stmts(c)) == c.qubits.len(),
        qreg_table(export_stmts(c)) == q_table(c.qubits.len()),
{
    let n = c.qubits.len();
    let sv = export_stmts(c);
    let h = StmtView::Header("2.0"@);
    let inc = StmtView::Include("qelib1.inc"@);
    let q = StmtView::Qreg(seq!['q'], n as usize);
    let a = seq![h, inc, q];
    let b = sv.subrange(3, sv.len() as int);
    assert(sv =~= a + b);
    assert forall|i: int| 0 <= i < b.len() implies !(#[trigger] b[i] is Qreg) by {
        assert(b[i] == sv[i + 3]);
    }
    lemma_no_qreg_suffix(a, b);
    assert(a.drop_last() =~= seq![h, inc]);
    assert(seq![h, inc].drop_last() =~= seq![h]);
    assert(seq![h].drop_last() =~= Seq::<StmtView>::empty());
    assert(qreg_total(Seq::<StmtView>::empty()) == 0);
    assert(qreg_table(Seq::<StmtView>::empty()) =~= Seq::<QregModel>::empty());
    assert(seq![h].last() == h);
    assert(seq![h, inc].last() == inc);
    assert(a.last() == q);
    assert(qreg_total(seq![h]) == 0);
    assert(qreg_total(seq![h, inc]) == 0);
    assert(qreg_table(seq![h]) =~= Seq::<QregModel>::empty());
    assert(qreg_table(seq![h, inc]) =~= Seq::<QregModel>::empty());
    assert(qreg_table(a) =~= q_table(n));
}


/// The export's gates already stand as early as their qubits allow.
pub open spec fn asap_packed(c: CircuitView) -> bool {
    asap_layout(export_order(c), c.qubits.len()).0 == gate_columns(export_order(c))
}

/// Exporting a valid circuit whose gates are all written by name (H, X,
/// Y, Z, S, T, CNOT, CZ, SWAP, Toffoli, barrier) and importing the text
/// back gives the circuit again: the text parses with no warning, the
/// import succeeds with no warning and the same number of qubits, the
/// gates come back in execution order with their kinds, targets and
/// controls, each as early as its qubits allow (so at its own column when
/// the circuit was already packed that way), and the measurements come
/// back on their qubits in column order.
pub proof fn lemma_qasm_roundtrip(
    c: CircuitView,
    angles: Seq<Seq<char>>,
    p: QasmProgram,
    av: Seq<Seq<u64>>,
    r: Result<QasmImportResult, QasmError>,
)
    requires
        circuit_valid(c),
        c.qubits.len() >= 1,
        c.qubits.len() <= usize::MAX,
        c.gates.len() <= usize::MAX,
        c.measurements.len() < usize::MAX,
        forall|i: int| 0 <= i < c.gates.len() ==> plain_gate(#[trigger] c.gates[i].gate),
        parsed_program(qasm_text(c, angles), p),
        import_outcome(p, av, r),
    ensures
        warnings_cuttable(qasm_text(c, angles)),
        p.warnings@.len() == 0,
        stmt_views(p) == export_stmts(c),
        r matches Ok(res) && {
            &&& res.warnings@.len() == 0
            &&& has_default_wires(res.circuit@.qubits, c.qubits.len())
            &&& res.circuit@.gates.len() == c.gates.len()
            &&& forall|k: int| 0 <= k < c.gates.len() ==> {
                &&& (#[trigger] res.circuit@.gates[k]).gate == export_order(c)[k].gate
                &&& res.circuit@.gates[k].targets == export_order(c)[k].targets
                &&& res.circuit@.gates[k].controls == export_order(c)[k].controls
                &&& res.circuit@.gates[k].column == asap_layout(export_order(c), c.qubits.len()).0[k]
                &&& asap_packed(c) ==> res.circuit@.gates[k].column == export_order(c)[k].column
            }
            &&& res.circuit@.measurements.len() == c.measurements.len()
            &&& forall|k: int| 0 <= k < c.measurements.len() ==>
                (#[trigger] res.circuit@.measurements[k]).qubit_id == export_measurements(c)[k].qubit_id
        },
{
    let n = c.qubits.len();
    let m = c.measurements.len();
    let g = c.gates.len();
    let text = qasm_text(c, angles);
    assert(plain_gates(c.gates)) by {
        assert forall|i: int| 0 <= i < c.gates.len() implies {
            &&& plain_gate((#[trigger] c.gates[i]).gate)
            &&& c.gates[i].targets.len() == spec_num_qubits(c.gates[i].gate) - spec_num_controls(c.gates[i].gate)
            &&& c.gates[i].controls.len() == spec_num_controls(c.gates[i].gate)
        } by {
            assert(placement_ok(c.gates[i].gate, c.gates[i].targets, c.gates[i].controls, n));
        }
    }
    lemma_export_texts(c, angles);
    lemma_export_stmts(c);
    let ts = export_texts(c);
    let sv = export_stmts(c);
    lemma_parse_all(ts, sv);
    assert(warnings_cuttable(text));
    assert(p.warnings@.len() == 0) by {
        assert(p.warnings@.map_values(|w: String| w@).len() == 0);
    }
    assert(stmt_views(p) == sv);
    assert(string_views(p.warnings@) =~= Seq::<Seq<char>>::empty());
    lemma_export_qregs(c);
    lemma_export_orders(c);
    let og = export_order(c);
    let om = export_measurements(c);
    let t = q_table(n);
    let st0 = initial_state(n, string_views(p.warnings@));
    assert(og.take(0) =~= Seq::<PlacedGateView>::empty());
    assert(st0 == gates_state(og, n, 0)) by {
        assert(st0.gates =~= gates_state(og, n, 0).gates);
        assert(st0.next_col =~= gates_state(og, n, 0).next_col);
    }
    let base = register_stmts(n, m).len() as int;
    let rest = Seq::new(g, |k: int| gate_stmt_view(og[k]));
    let mrest = Seq::new(m, |k: int| measure_stmt(om[k].qubit_id, k as nat));
    assert(sv == register_stmts(n, m) + rest + mrest);
    assert forall|i: int| 0 <= i < base implies (#[trigger] sv[i] is Header || sv[i] is Include || sv[i] is Qreg || sv[i] is Creg) by {
        assert(sv[i] == register_stmts(n, m)[i]);
        if i == 0 {} else if i == 1 {} else if i == 2 {} else {}
    }
    lemma_phase_regs(sv, av, t, n as usize, st0, base);
    assert(plain_gates(og)) by {
        assert forall|i: int| 0 <= i < og.len() implies {
            &&& plain_gate((#[trigger] og[i]).gate)
            &&& og[i].targets.len() == spec_num_qubits(og[i].gate) - spec_num_controls(og[i].gate)
            &&& og[i].controls.len() == spec_num_controls(og[i].gate)
        } by {
            let j = stable_order(gate_columns(c.gates))[i] as int;
            assert(og[i] == c.gates[j]);
        }
    }
    assert forall|i: int| 0 <= i < og.len() implies placement_ok((#[trigger] og[i]).gate, og[i].targets, og[i].controls, n) by {
        let j = stable_order(gate_columns(c.gates))[i] as int;
        assert(og[i] == c.gates[j]);
    }
    assert forall|i: int| 0 <= i < og.len() implies sv[base + i] == gate_stmt_view(#[trigger] og[i]) by {
        assert(sv[base + i] == rest[i]);
    }
    lemma_phase_gates(sv, av, n as usize, st0, og, base, g as int);
    let sg = gates_state(og, n, g as int);
    lemma_asap_len(og.take(g as int), n);
    let qids = Seq::new(m, |k: int| om[k].qubit_id);
    assert forall|i: int| 0 <= i < qids.len() implies sv[base + g + i] == measure_stmt(#[trigger] qids[i], i as nat) by {
        assert(sv[base + g + i] == mrest[i]);
    }
    assert forall|i: int| 0 <= i < qids.len() implies #[trigger] qids[i] < n by {
        let j = stable_order(measurement_columns(c.measurements))[i] as int;
        assert(om[i] == c.measurements[j]);
    }
    lemma_phase_measures(sv, av, n as usize, st0, qids, base + g, sg, m as int);
    assert(sv.take(base + g + m) =~= sv);
    assert(og.take(g as int) =~= og);
    let st = import_steps(sv, av, t, n as usize, st0)->Ok_0;
    assert(st.measurements.len() == m);
    let res = r->Ok_0;
    assert(res.circuit@.gates == sg.gates);
    assert(string_views(res.warnings@).len() == res.warnings@.len());
    assert forall|k: int| 0 <= k < c.measurements.len() implies
        (#[trigger] res.circuit@.measurements[k]).qubit_id == export_measurements(c)[k].qubit_id by {
        assert(st.measurements[0 + k].qubit_id == qids[k]);
    }
    assert forall|k: int| 0 <= k < c.gates.len() implies asap_packed(c) ==> res.circuit@.gates[k].column == export_order(c)[k].column by {
        if asap_packed(c) {
            assert(asap_layout(og, n).0[k] == gate_columns(og)[k]);
        }
    }
}

} // verus!
