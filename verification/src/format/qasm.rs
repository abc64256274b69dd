//! OpenQASM 2.0 export and import.
//!
//! Export writes the header, the register declarations, one line per gate
//! in execution order and the measurements sorted by column. Rotation
//! angles are written from their six-decimal renderings, which the caller
//! supplies per gate.
use vstd::prelude::*;
use crate::circuit::{
    Circuit, CircuitError, CircuitView, Measurement, PlacedGate, PlacedGateView, at_least, error_message, first_out_of_range,
    first_overlap, gate_columns, has_default_wires, is_one_of, validate_result, circuit_valid,
};
use crate::format::qasm_parse::{QasmProgram, QasmStmt, RegRef, StmtView, reg_view, regs_view};
use crate::seqs::{first_match, lemma_first_match, lemma_first_match_at, lemma_first_match_none};
use crate::gate::GateType;
use crate::order::{stable_order, stable_order_indices};
use crate::text::{chars_of, decimal, push_decimal, spells};

verus! {

/// Error type for OpenQASM export and import.
#[derive(Debug, Clone, PartialEq)]
pub enum QasmError {
    /// The circuit has no qubits.
    EmptyCircuit,
    /// Invalid gate configuration.
    InvalidGate(String),
    /// Error parsing OpenQASM input.
    ParseError(String),
}

/// The text a QASM error is shown with.
pub open spec fn qasm_error_text(e: QasmError) -> Seq<char> {
    match e {
        QasmError::EmptyCircuit => "Cannot export empty circuit (no qubits)"@,
        QasmError::InvalidGate(m) => "Invalid gate configuration: "@ + m@,
        QasmError::ParseError(m) => "OpenQASM parse error: "@ + m@,
    }
}

impl QasmError {
    /// The error as text.
    pub fn message(&self) -> (s: String)
        ensures
            s@ == qasm_error_text(*self),
    {
        match self {
            QasmError::EmptyCircuit => String::from_str("Cannot export empty circuit (no qubits)"),
            QasmError::InvalidGate(m) => {
                let mut s = String::from_str("Invalid gate configuration: ");
                s.append(m.as_str());
                s
            },
            QasmError::ParseError(m) => {
                let mut s = String::from_str("OpenQASM parse error: ");
                s.append(m.as_str());
                s
            },
        }
    }
}

/// `q[<t>]`.
pub open spec fn qref(t: usize) -> Seq<char> {
    "q["@ + decimal(t as nat) + "]"@
}

/// `q[a],q[b],...` for the given qubits.
pub open spec fn qubit_list(ts: Seq<usize>) -> Seq<char>
    decreases ts.len(),
{
    if ts.len() == 0 {
        Seq::empty()
    } else if ts.len() == 1 {
        qref(ts[0])
    } else {
        qubit_list(ts.drop_last()) + ","@ + qref(ts.last())
    }
}

/// The line for a gate acting on its first target.
pub open spec fn on_first_target(name: Seq<char>, g: PlacedGateView) -> Option<Seq<char>> {
    if g.targets.len() > 0 { Some(name + qref(g.targets[0]) + ";"@) } else { None }
}

/// The OpenQASM line of a gate, if it has one; `angle` is the six-decimal
/// rendering of a rotation's angle.
pub open spec fn gate_code(g: PlacedGateView, angle: Seq<char>) -> Option<Seq<char>> {
    match g.gate {
        GateType::H => on_first_target("h "@, g),
        GateType::X => on_first_target("x "@, g),
        GateType::Y => on_first_target("y "@, g),
        GateType::Z => on_first_target("z "@, g),
        GateType::S => on_first_target("s "@, g),
        GateType::T => on_first_target("t "@, g),
        GateType::Rx(_) => on_first_target("rx("@ + angle + ") "@, g),
        GateType::Ry(_) => on_first_target("ry("@ + angle + ") "@, g),
        GateType::Rz(_) => on_first_target("rz("@ + angle + ") "@, g),
        GateType::Cnot => if g.controls.len() > 0 && g.targets.len() > 0 {
            Some("cx "@ + qref(g.controls[0]) + ","@ + qref(g.targets[0]) + ";"@)
        } else { None },
        GateType::Cz => if g.controls.len() > 0 && g.targets.len() > 0 {
            Some("cz "@ + qref(g.controls[0]) + ","@ + qref(g.targets[0]) + ";"@)
        } else { None },
        GateType::Swap => if g.targets.len() > 1 {
            Some("swap "@ + qref(g.targets[0]) + ","@ + qref(g.targets[1]) + ";"@)
        } else { None },
        GateType::Toffoli => if g.controls.len() > 1 && g.targets.len() > 0 {
            Some("ccx "@ + qref(g.controls[0]) + ","@ + qref(g.controls[1]) + ","@ + qref(g.targets[0]) + ";"@)
        } else { None },
        GateType::Barrier => Some("barrier "@ + qubit_list(g.targets) + ";"@),
        GateType::Identity => None,
        GateType::Custom(name) => if g.targets.len() > 0 {
            Some("// Custom gate: "@ + name@ + " on "@ + qref(g.targets[0]) + " (requires manual implementation)"@)
        } else { None },
    }
}

fn push_qref(s: &mut String, t: usize)
    ensures
        final(s)@ == old(s)@ + qref(t),
{
    s.append("q[");
    push_decimal(s, t);
    s.append("]");
}

fn push_qubit_list(s: &mut String, ts: &Vec<usize>)
    ensures
        final(s)@ == old(s)@ + qubit_list(ts@),
{
    let ghost start = s@;
    let mut i: usize = 0;
    while i < ts.len()
        invariant
            i <= ts@.len(),
            s@ == start + qubit_list(ts@.take(i as int)),
        decreases ts.len() - i,
    {
        let ghost before = s@;
        if i > 0 {
            s.append(",");
        }
        push_qref(s, ts[i]);
        proof {
            let p = ts@.take(i as int + 1);
            assert(p.drop_last() =~= ts@.take(i as int));
            assert(p.last() == ts@[i as int]);
            if i == 0 {
                assert(qubit_list(ts@.take(0)) =~= Seq::<char>::empty());
                assert(s@ =~= start + qubit_list(p));
            } else {
                assert(s@ =~= start + qubit_list(p));
            }
        }
        i = i + 1;
    }
    assert(ts@.take(ts@.len() as int) =~= ts@);
}

fn gate_on_first_target(name: &str, gate: &PlacedGate) -> (r: Option<String>)
    ensures
        r matches Some(s) ==> on_first_target(name@, gate@) == Some(s@),
        r is None ==> on_first_target(name@, gate@) is None,
{
    if gate.target_qubits.len() == 0 {
        return None;
    }
    let mut s = String::from_str(name);
    push_qref(&mut s, gate.target_qubits[0]);
    s.append(";");
    Some(s)
}

fn rotation_on_first_target(name: &str, angle: &str, gate: &PlacedGate) -> (r: Option<String>)
    ensures
        r matches Some(s) ==> on_first_target(name@ + angle@ + ") "@, gate@) == Some(s@),
        r is None ==> on_first_target(name@ + angle@ + ") "@, gate@) is None,
{
    if gate.target_qubits.len() == 0 {
        return None;
    }
    let mut s = String::from_str(name);
    s.append(angle);
    s.append(") ");
    push_qref(&mut s, gate.target_qubits[0]);
    s.append(";");
    assert(s@ =~= name@ + angle@ + ") "@ + qref(gate@.targets[0]) + ";"@);
    Some(s)
}

fn controlled_on_first_target(name: &str, gate: &PlacedGate) -> (r: Option<String>)
    ensures
        r matches Some(s) ==> gate@.controls.len() > 0 && gate@.targets.len() > 0
            && s@ == name@ + qref(gate@.controls[0]) + ","@ + qref(gate@.targets[0]) + ";"@,
        r is None ==> !(gate@.controls.len() > 0 && gate@.targets.len() > 0),
{
    if gate.control_qubits.len() == 0 || gate.target_qubits.len() == 0 {
        return None;
    }
    let mut s = String::from_str(name);
    push_qref(&mut s, gate.control_qubits[0]);
    s.append(",");
    push_qref(&mut s, gate.target_qubits[0]);
    s.append(";");
    Some(s)
}

/// The OpenQASM line of a gate, or `None` for a gate that has none
/// (identity, or a gate missing the qubits its line names). `angle` is the
/// six-decimal rendering of a rotation's angle and is ignored otherwise.
pub fn generate_gate_code(gate: &PlacedGate, angle: &str) -> (r: Option<String>)
    ensures
        r matches Some(s) ==> gate_code(gate@, angle@) == Some(s@),
        r is None ==> gate_code(gate@, angle@) is None,
{
    match &gate.gate {
        GateType::H => gate_on_first_target("h ", gate),
        GateType::X => gate_on_first_target("x ", gate),
        GateType::Y => gate_on_first_target("y ", gate),
        GateType::Z => gate_on_first_target("z ", gate),
        GateType::S => gate_on_first_target("s ", gate),
        GateType::T => gate_on_first_target("t ", gate),
        GateType::Rx(_) => rotation_on_first_target("rx(", angle, gate),
        GateType::Ry(_) => rotation_on_first_target("ry(", angle, gate),
        GateType::Rz(_) => rotation_on_first_target("rz(", angle, gate),
        GateType::Cnot => controlled_on_first_target("cx ", gate),
        GateType::Cz => controlled_on_first_target("cz ", gate),
        GateType::Swap => {
            if gate.target_qubits.len() < 2 {
                return None;
            }
            let mut s = String::from_str("swap ");
            push_qref(&mut s, gate.target_qubits[0]);
            s.append(",");
            push_qref(&mut s, gate.target_qubits[1]);
            s.append(";");
            Some(s)
        },
        GateType::Toffoli => {
            if gate.control_qubits.len() < 2 || gate.target_qubits.len() == 0 {
                return None;
            }
            let mut s = String::from_str("ccx ");
            push_qref(&mut s, gate.control_qubits[0]);
            s.append(",");
            push_qref(&mut s, gate.control_qubits[1]);
            s.append(",");
            push_qref(&mut s, gate.target_qubits[0]);
            s.append(";");
            Some(s)
        },
        GateType::Barrier => {
            let mut s = String::from_str("barrier ");
            push_qubit_list(&mut s, &gate.target_qubits);
            s.append(";");
            Some(s)
        },
        GateType::Identity => None,
        GateType::Custom(name) => {
            if gate.target_qubits.len() == 0 {
                return None;
            }
            let mut s = String::from_str("// Custom gate: ");
            s.append(name.as_str());
            s.append(" on ");
            push_qref(&mut s, gate.target_qubits[0]);
            s.append(" (requires manual implementation)");
            Some(s)
        },
    }
}

/// The lines of gates listed in `ord`, skipping gates that have none.
pub open spec fn gate_lines(gs: Seq<PlacedGateView>, angles: Seq<Seq<char>>, ord: Seq<usize>) -> Seq<Seq<char>>
    decreases ord.len(),
{
    if ord.len() == 0 {
        Seq::empty()
    } else {
        let prev = gate_lines(gs, angles, ord.drop_last());
        match gate_code(gs[ord.last() as int], angles[ord.last() as int]) {
            Some(l) => prev.push(l),
            None => prev,
        }
    }
}

/// The lines, each preceded by a newline.
pub open spec fn line_block(lines: Seq<Seq<char>>) -> Seq<char>
    decreases lines.len(),
{
    if lines.len() == 0 {
        Seq::empty()
    } else {
        line_block(lines.drop_last()) + "\n"@ + lines.last()
    }
}

/// The measurement line of qubit `q` into classical bit `k`.
pub open spec fn measure_line(q: usize, k: nat) -> Seq<char> {
    "measure "@ + qref(q) + " -> c["@ + decimal(k) + "];"@
}

/// The measurement lines, the `k`-th measuring `ms[ord[k]]` into bit `k`.
pub open spec fn measure_lines(ms: Seq<Measurement>, ord: Seq<usize>) -> Seq<Seq<char>> {
    Seq::new(ord.len(), |k: int| measure_line(ms[ord[k] as int].qubit_id, k as nat))
}

/// The columns of the measurements, in insertion order.
pub open spec fn measurement_columns(ms: Seq<Measurement>) -> Seq<usize> {
    ms.map_values(|m: Measurement| m.column)
}

/// The header and the register declarations.
pub open spec fn qasm_registers(n: nat, m: nat) -> Seq<char> {
    "OPENQASM 2.0;\ninclude \"qelib1.inc\";\n\nqreg q["@ + decimal(n) + "];"@
        + if m > 0 { "\ncreg c["@ + decimal(m) + "];"@ } else { Seq::empty() }
}

/// The OpenQASM text of a circuit: registers, a blank line, gate lines
/// in execution order, then a blank line and the measurements sorted by
/// column; with nothing after the registers, the text ends there.
pub open spec fn qasm_text(c: CircuitView, angles: Seq<Seq<char>>) -> Seq<char> {
    let gl = gate_lines(c.gates, angles, stable_order(gate_columns(c.gates)));
    let ml = measure_lines(c.measurements, stable_order(measurement_columns(c.measurements)));
    let regs = qasm_registers(c.qubits.len(), c.measurements.len());
    if gl.len() == 0 && ml.len() == 0 {
        regs
    } else {
        regs + "\n"@ + line_block(gl) + if ml.len() > 0 { "\n"@ + line_block(ml) } else { Seq::empty() }
    }
}

/// The views of the angle texts.
pub open spec fn angle_views(angles: Seq<String>) -> Seq<Seq<char>> {
    angles.map_values(|a: String| a@)
}

proof fn lemma_line_block_empty(lines: Seq<Seq<char>>)
    ensures
        (line_block(lines).len() == 0) == (lines.len() == 0),
{
    if lines.len() > 0 {
        assert(line_block(lines) == line_block(lines.drop_last()) + "\n"@ + lines.last());
        assert(("\n"@).len() == 1) by {
            reveal_strlit("\n");
        }
    }
}

/// OpenQASM 2.0 code for a circuit. `angles[i]` is the six-decimal
/// rendering of the angle of gate `i` (ignored for gates without one).
pub fn circuit_to_qasm(circuit: &Circuit, angles: &Vec<String>) -> (r: Result<String, QasmError>)
    requires
        angles@.len() == circuit.gates@.len(),
    ensures
        circuit.qubits@.len() == 0 ==> r == Err::<String, QasmError>(QasmError::EmptyCircuit),
        circuit.qubits@.len() > 0 ==> (r matches Ok(s) && s@ == qasm_text(circuit@, angle_views(angles@))),
{
    if circuit.num_qubits() == 0 {
        return Err(QasmError::EmptyCircuit);
    }
    let n = circuit.num_qubits();
    let m = circuit.measurements.len();
    let mut s = String::from_str("OPENQASM 2.0;\ninclude \"qelib1.inc\";\n\nqreg q[");
    push_decimal(&mut s, n);
    s.append("];");
    if m > 0 {
        s.append("\ncreg c[");
        push_decimal(&mut s, m);
        s.append("];");
    }
    assert(s@ == qasm_registers(n as nat, m as nat));

    let ghost gs = circuit@.gates;
    let ghost av = angle_views(angles@);
    let mut keys: Vec<usize> = Vec::new();
    let mut i: usize = 0;
    while i < circuit.gates.len()
        invariant
            i <= circuit.gates@.len(),
            keys@ == gate_columns(circuit@.gates).take(i as int),
        decreases circuit.gates.len() - i,
    {
        keys.push(circuit.gates[i].column);
        i = i + 1;
        assert(keys@ == gate_columns(circuit@.gates).take(i as int));
    }
    assert(keys@ == gate_columns(circuit@.gates));
    let ord = stable_order_indices(&keys);
    let mut gl = String::new();
    let mut k: usize = 0;
    while k < ord.len()
        invariant
            k <= ord@.len(),
            ord@ == stable_order(gate_columns(gs)),
            ord@.len() == gs.len(),
            forall|j: int| 0 <= j < ord@.len() ==> (#[trigger] ord@[j]) < gs.len(),
            gs == circuit@.gates,
            av == angle_views(angles@),
            angles@.len() == gs.len(),
            gl@ == line_block(gate_lines(gs, av, ord@.take(k as int))),
        decreases ord.len() - k,
    {
        let idx = ord[k];
        assert(ord@.take(k as int + 1).drop_last() =~= ord@.take(k as int));
        assert(circuit.gates@[idx as int]@ == gs[idx as int]);
        assert(av[idx as int] == angles@[idx as int]@);
        let ghost prev = gate_lines(gs, av, ord@.take(k as int));
        assert(ord@.take(k as int + 1).last() == idx);
        match generate_gate_code(&circuit.gates[idx], angles[idx].as_str()) {
            Some(l) => {
                gl.append("\n");
                gl.append(l.as_str());
                assert(gate_lines(gs, av, ord@.take(k as int + 1)) == prev.push(l@));
                assert(prev.push(l@).drop_last() =~= prev);
            },
            None => {
                assert(gate_lines(gs, av, ord@.take(k as int + 1)) == prev);
            },
        }
        k = k + 1;
    }
    assert(ord@.take(ord@.len() as int) =~= ord@);

    let ghost ms = circuit@.measurements;
    let mut mkeys: Vec<usize> = Vec::new();
    let mut i: usize = 0;
    while i < circuit.measurements.len()
        invariant
            i <= circuit.measurements@.len(),
            mkeys@ == measurement_columns(circuit@.measurements).take(i as int),
        decreases circuit.measurements.len() - i,
    {
        mkeys.push(circuit.measurements[i].column);
        i = i + 1;
        assert(mkeys@ == measurement_columns(circuit@.measurements).take(i as int));
    }
    assert(mkeys@ == measurement_columns(circuit@.measurements));
    let mord = stable_order_indices(&mkeys);
    let mut ml = String::new();
    let mut k: usize = 0;
    while k < mord.len()
        invariant
            k <= mord@.len(),
            mord@ == stable_order(measurement_columns(ms)),
            mord@.len() == ms.len(),
            forall|j: int| 0 <= j < mord@.len() ==> (#[trigger] mord@[j]) < ms.len(),
            ms == circuit@.measurements,
            ml@ == line_block(measure_lines(ms, mord@.take(k as int))),
        decreases mord.len() - k,
    {
        let idx = mord[k];
        assert(measure_lines(ms, mord@.take(k as int + 1)).drop_last() =~= measure_lines(ms, mord@.take(k as int)));
        ml.append("\nmeasure ");
        push_qref(&mut ml, circuit.measurements[idx].qubit_id);
        ml.append(" -> c[");
        push_decimal(&mut ml, k);
        ml.append("];");
        k = k + 1;
        proof {
            reveal_strlit("\nmeasure ");
            reveal_strlit("\n");
            reveal_strlit("measure ");
            assert(("\nmeasure "@) =~= "\n"@ + "measure "@);
        }
    }
    assert(mord@.take(mord@.len() as int) =~= mord@);
    proof {
        lemma_line_block_empty(gate_lines(gs, av, ord@));
        lemma_line_block_empty(measure_lines(ms, mord@));
    }
    if gl.as_str().unicode_len() > 0 || m > 0 {
        s.append("\n");
        s.append(gl.as_str());
        if m > 0 {
            s.append("\n");
            s.append(ml.as_str());
        }
    }
    Ok(s)
}

/// A one-qubit gate applied to the only listed qubit.
pub open spec fn one_qubit(g: GateType, name: Seq<char>, qs: Seq<usize>) -> Result<(GateType, Seq<usize>, Seq<usize>), Seq<char>> {
    if qs.len() != 1 {
        Err(name + " expects 1 qubit, got "@ + decimal(qs.len()))
    } else {
        Ok((g, seq![qs[0]], Seq::empty()))
    }
}

/// A rotation applied to the only listed qubit, with the only parameter.
pub open spec fn rotation(g: GateType, message: Seq<char>, params: Seq<u64>, qs: Seq<usize>) -> Result<(GateType, Seq<usize>, Seq<usize>), Seq<char>> {
    if qs.len() != 1 || params.len() != 1 {
        Err(message)
    } else {
        Ok((g, seq![qs[0]], Seq::empty()))
    }
}

/// What an OpenQASM gate name with its parameters (angle bits) and
/// resolved qubits becomes: gate type, targets and controls, or a warning.
pub open spec fn gate_mapping(name: Seq<char>, params: Seq<u64>, qs: Seq<usize>) -> Result<(GateType, Seq<usize>, Seq<usize>), Seq<char>> {
    if name == "h"@ { one_qubit(GateType::H, "h"@, qs) }
    else if name == "x"@ { one_qubit(GateType::X, "x"@, qs) }
    else if name == "y"@ { one_qubit(GateType::Y, "y"@, qs) }
    else if name == "z"@ { one_qubit(GateType::Z, "z"@, qs) }
    else if name == "s"@ { one_qubit(GateType::S, "s"@, qs) }
    else if name == "t"@ { one_qubit(GateType::T, "t"@, qs) }
    else if name == "id"@ { one_qubit(GateType::Identity, "id"@, qs) }
    else if name == "rx"@ {
        rotation(GateType::Rx(if params.len() > 0 { params[0] } else { 0 }), "rx expects 1 qubit and 1 parameter"@, params, qs)
    } else if name == "ry"@ {
        rotation(GateType::Ry(if params.len() > 0 { params[0] } else { 0 }), "ry expects 1 qubit and 1 parameter"@, params, qs)
    } else if name == "rz"@ || name == "p"@ || name == "u1"@ {
        rotation(GateType::Rz(if params.len() > 0 { params[0] } else { 0 }), name + " expects 1 qubit and 1 parameter"@, params, qs)
    } else if name == "cx"@ || name == "CX"@ {
        if qs.len() != 2 { Err("cx expects 2 qubits, got "@ + decimal(qs.len())) } else { Ok((GateType::Cnot, seq![qs[1]], seq![qs[0]])) }
    } else if name == "cz"@ {
        if qs.len() != 2 { Err("cz expects 2 qubits, got "@ + decimal(qs.len())) } else { Ok((GateType::Cz, seq![qs[1]], seq![qs[0]])) }
    } else if name == "swap"@ {
        if qs.len() != 2 { Err("swap expects 2 qubits, got "@ + decimal(qs.len())) } else { Ok((GateType::Swap, seq![qs[0], qs[1]], Seq::empty())) }
    } else if name == "ccx"@ {
        if qs.len() != 3 { Err("ccx expects 3 qubits, got "@ + decimal(qs.len())) } else { Ok((GateType::Toffoli, seq![qs[2]], seq![qs[0], qs[1]])) }
    } else {
        Err("Skipping unsupported gate '"@ + name + "'"@)
    }
}

/// The mapping result as plain values.
pub open spec fn mapping_view(r: Result<(GateType, Vec<usize>, Vec<usize>), String>) -> Result<(GateType, Seq<usize>, Seq<usize>), Seq<char>> {
    match r {
        Ok((g, t, c)) => Ok((g, t@, c@)),
        Err(w) => Err(w@),
    }
}

fn map_one_qubit(g: GateType, name: &str, qubits: &[usize]) -> (r: Result<(GateType, Vec<usize>, Vec<usize>), String>)
    ensures
        mapping_view(r) == one_qubit(g, name@, qubits@),
{
    if qubits.len() != 1 {
        let mut w = String::from_str(name);
        w.append(" expects 1 qubit, got ");
        push_decimal(&mut w, qubits.len());
        return Err(w);
    }
    let mut t: Vec<usize> = Vec::new();
    t.push(qubits[0]);
    assert(t@ =~= seq![qubits@[0]]);
    Ok((g, t, Vec::new()))
}

fn map_rotation(g: GateType, message: &str, params: &[u64], qubits: &[usize]) -> (r: Result<(GateType, Vec<usize>, Vec<usize>), String>)
    ensures
        mapping_view(r) == rotation(g, message@, params@, qubits@),
{
    if qubits.len() != 1 || params.len() != 1 {
        return Err(String::from_str(message));
    }
    let mut t: Vec<usize> = Vec::new();
    t.push(qubits[0]);
    assert(t@ =~= seq![qubits@[0]]);
    Ok((g, t, Vec::new()))
}

fn qubit_count_warning(message: &str, n: usize) -> (w: String)
    ensures
        w@ == message@ + decimal(n as nat),
{
    let mut w = String::from_str(message);
    push_decimal(&mut w, n);
    w
}

fn first_angle(params: &[u64]) -> (a: u64)
    ensures
        a == if params@.len() > 0 { params@[0] } else { 0 },
{
    if params.len() > 0 { params[0] } else { 0 }
}

/// Maps an OpenQASM gate name, its parameters (angle bits) and its resolved
/// qubits to a gate type with targets and controls; unsupported gates and
/// wrong qubit or parameter counts give a warning instead.
pub fn map_gate_to_circuit(name: &str, params: &[u64], qubits: &[usize]) -> (r: Result<(GateType, Vec<usize>, Vec<usize>), String>)
    ensures
        mapping_view(r) == gate_mapping(name@, params@, qubits@),
{
    let v = chars_of(name);
    if spells(&v, "h") { return map_one_qubit(GateType::H, "h", qubits); }
    if spells(&v, "x") { return map_one_qubit(GateType::X, "x", qubits); }
    if spells(&v, "y") { return map_one_qubit(GateType::Y, "y", qubits); }
    if spells(&v, "z") { return map_one_qubit(GateType::Z, "z", qubits); }
    if spells(&v, "s") { return map_one_qubit(GateType::S, "s", qubits); }
    if spells(&v, "t") { return map_one_qubit(GateType::T, "t", qubits); }
    if spells(&v, "id") { return map_one_qubit(GateType::Identity, "id", qubits); }
    let a = first_angle(params);
    if spells(&v, "rx") { return map_rotation(GateType::Rx(a), "rx expects 1 qubit and 1 parameter", params, qubits); }
    if spells(&v, "ry") { return map_rotation(GateType::Ry(a), "ry expects 1 qubit and 1 parameter", params, qubits); }
    if spells(&v, "rz") || spells(&v, "p") || spells(&v, "u1") {
        let mut m = String::from_str(name);
        m.append(" expects 1 qubit and 1 parameter");
        return map_rotation(GateType::Rz(a), m.as_str(), params, qubits);
    }
    if spells(&v, "cx") || spells(&v, "CX") {
        if qubits.len() != 2 { return Err(qubit_count_warning("cx expects 2 qubits, got ", qubits.len())); }
        let mut t: Vec<usize> = Vec::new();
        t.push(qubits[1]);
        let mut c: Vec<usize> = Vec::new();
        c.push(qubits[0]);
        assert(t@ =~= seq![qubits@[1]] && c@ =~= seq![qubits@[0]]);
        return Ok((GateType::Cnot, t, c));
    }
    if spells(&v, "cz") {
        if qubits.len() != 2 { return Err(qubit_count_warning("cz expects 2 qubits, got ", qubits.len())); }
        let mut t: Vec<usize> = Vec::new();
        t.push(qubits[1]);
        let mut c: Vec<usize> = Vec::new();
        c.push(qubits[0]);
        assert(t@ =~= seq![qubits@[1]] && c@ =~= seq![qubits@[0]]);
        return Ok((GateType::Cz, t, c));
    }
    if spells(&v, "swap") {
        if qubits.len() != 2 { return Err(qubit_count_warning("swap expects 2 qubits, got ", qubits.len())); }
        let mut t: Vec<usize> = Vec::new();
        t.push(qubits[0]);
        t.push(qubits[1]);
        assert(t@ =~= seq![qubits@[0], qubits@[1]]);
        return Ok((GateType::Swap, t, Vec::new()));
    }
    if spells(&v, "ccx") {
        if qubits.len() != 3 { return Err(qubit_count_warning("ccx expects 3 qubits, got ", qubits.len())); }
        let mut t: Vec<usize> = Vec::new();
        t.push(qubits[2]);
        let mut c: Vec<usize> = Vec::new();
        c.push(qubits[0]);
        c.push(qubits[1]);
        assert(t@ =~= seq![qubits@[2]] && c@ =~= seq![qubits@[0], qubits@[1]]);
        return Ok((GateType::Toffoli, t, c));
    }
    let mut w = String::from_str("Skipping unsupported gate '");
    w.append(name);
    w.append("'");
    Err(w)
}

/// The result of importing OpenQASM: the circuit and the warnings for
/// statements that were skipped.
#[derive(Debug)]
pub struct QasmImportResult {
    /// The imported circuit.
    pub circuit: Circuit,
    /// Warnings for skipped or unsupported elements, in source order.
    pub warnings: Vec<String>,
}

/// A quantum register as the importer sees it: name, first qubit, size.
pub type QregModel = (Seq<char>, nat, nat);

/// Total number of qubits the `qreg` statements declare.
pub open spec fn qreg_total(stmts: Seq<StmtView>) -> nat
    decreases stmts.len(),
{
    if stmts.len() == 0 {
        0
    } else {
        qreg_total(stmts.drop_last()) + match stmts.last() {
            StmtView::Qreg(_, size) => size as nat,
            _ => 0,
        }
    }
}

/// The quantum registers in declaration order, each starting where the
/// previous one ends.
pub open spec fn qreg_table(stmts: Seq<StmtView>) -> Seq<QregModel>
    decreases stmts.len(),
{
    if stmts.len() == 0 {
        Seq::empty()
    } else {
        let t = qreg_table(stmts.drop_last());
        match stmts.last() {
            StmtView::Qreg(name, size) => t.push((name, qreg_total(stmts.drop_last()), size as nat)),
            _ => t,
        }
    }
}

/// Number of placements the statements can make: one per gate or
/// measurement, one per barrier qubit.
pub open spec fn op_count(stmts: Seq<StmtView>) -> nat
    decreases stmts.len(),
{
    if stmts.len() == 0 {
        0
    } else {
        op_count(stmts.drop_last()) + stmt_weight(stmts.last())
    }
}

/// The register entry has the given name.
pub open spec fn named(reg: Seq<char>) -> spec_fn(QregModel) -> bool {
    |e: QregModel| e.0 == reg
}

/// What a register reference resolves to: the first register of that
/// name, offset by the index, or an error message.
pub open spec fn resolve(table: Seq<QregModel>, r: (Seq<char>, usize)) -> Result<usize, Seq<char>> {
    match first_match(table, named(r.0)) {
        Some(k) => if r.1 >= table[k].2 {
            Err("Index "@ + decimal(r.1 as nat) + " out of bounds for register '"@ + r.0 + "' (size "@ + decimal(table[k].2) + ")"@)
        } else {
            Ok((table[k].1 + r.1) as usize)
        },
        None => Err("Undefined quantum register '"@ + r.0 + "'"@),
    }
}

/// Resolves references in order, stopping at the first error.
pub open spec fn resolve_all(table: Seq<QregModel>, rs: Seq<(Seq<char>, usize)>) -> Result<Seq<usize>, Seq<char>>
    decreases rs.len(),
{
    if rs.len() == 0 {
        Ok(Seq::empty())
    } else {
        match resolve_all(table, rs.drop_last()) {
            Err(e) => Err(e),
            Ok(qs) => match resolve(table, rs.last()) {
                Err(e) => Err(e),
                Ok(q) => Ok(qs.push(q)),
            },
        }
    }
}

/// The importer's state: gates and measurements placed so far, the next
/// free column of each qubit, and the warnings.
pub struct ImportState {
    pub gates: Seq<PlacedGateView>,
    pub measurements: Seq<Measurement>,
    pub next_col: Seq<usize>,
    pub warnings: Seq<Seq<char>>,
}

/// The latest next-free column among the qubits, 0 for none.
pub open spec fn latest(nc: Seq<usize>, qs: Seq<usize>) -> nat
    decreases qs.len(),
{
    if qs.len() == 0 {
        0
    } else {
        let m = latest(nc, qs.drop_last());
        let v = nc[qs.last() as int];
        if v > m { v as nat } else { m }
    }
}

/// Next-free columns with each of `qs` set to `v`.
pub open spec fn bumped(nc: Seq<usize>, qs: Seq<usize>, v: usize) -> Seq<usize> {
    Seq::new(nc.len(), |q: int| if qs.contains(q as usize) { v } else { nc[q] })
}

/// Places a mapped gate as early as all its qubits are free.
pub open spec fn place_gate(st: ImportState, g: GateType, ts: Seq<usize>, cs: Seq<usize>, n: usize) -> Result<ImportState, Seq<char>> {
    match validate_result(g, ts, cs, n) {
        Err(e) => Err(error_message(e, Seq::empty())),
        Ok(_) => {
            let col = latest(st.next_col, ts + cs);
            Ok(ImportState {
                gates: st.gates.push(PlacedGateView { gate: g, targets: ts, controls: cs, column: col as usize, parameters: Seq::empty() }),
                next_col: bumped(st.next_col, ts + cs, (col + 1) as usize),
                ..st
            })
        },
    }
}

/// Places one barrier per listed qubit, each at that qubit's next column.
pub open spec fn barrier_steps(st: ImportState, table: Seq<QregModel>, rs: Seq<(Seq<char>, usize)>) -> Result<ImportState, Seq<char>>
    decreases rs.len(),
{
    if rs.len() == 0 {
        Ok(st)
    } else {
        match barrier_steps(st, table, rs.drop_last()) {
            Err(e) => Err(e),
            Ok(s2) => match resolve(table, rs.last()) {
                Err(e) => Err(e),
                Ok(q) => {
                    let col = s2.next_col[q as int];
                    Ok(ImportState {
                        gates: s2.gates.push(PlacedGateView {
                            gate: GateType::Barrier,
                            targets: seq![q],
                            controls: Seq::empty(),
                            column: col,
                            parameters: Seq::empty(),
                        }),
                        next_col: s2.next_col.update(q as int, (col + 1) as usize),
                        ..s2
                    })
                },
            },
        }
    }
}

/// One statement's effect on the importer's state; `angles` are the
/// statement's parameters as angle bits.
pub open spec fn import_stmt(st: ImportState, table: Seq<QregModel>, n: usize, stmt: StmtView, angles: Seq<u64>) -> Result<ImportState, Seq<char>> {
    match stmt {
        StmtView::Gate { name, params, qubits } => match resolve_all(table, qubits) {
            Err(e) => Err(e),
            Ok(qs) => match gate_mapping(name, angles, qs) {
                Err(w) => Ok(ImportState { warnings: st.warnings.push(w), ..st }),
                Ok((g, ts, cs)) => place_gate(st, g, ts, cs, n),
            },
        },
        StmtView::Measure { qubit, cbit } => match resolve(table, qubit) {
            Err(e) => Err(e),
            Ok(q) => {
                let col = st.next_col[q as int];
                Ok(ImportState {
                    measurements: st.measurements.push(Measurement { qubit_id: q, column: col }),
                    next_col: st.next_col.update(q as int, (col + 1) as usize),
                    ..st
                })
            },
        },
        StmtView::Barrier(qs) => barrier_steps(st, table, qs),
        _ => Ok(st),
    }
}

/// The statements' effect, in order, stopping at the first error.
pub open spec fn import_steps(stmts: Seq<StmtView>, angles: Seq<Seq<u64>>, table: Seq<QregModel>, n: usize, st0: ImportState) -> Result<ImportState, Seq<char>>
    decreases stmts.len(),
{
    if stmts.len() == 0 {
        Ok(st0)
    } else {
        match import_steps(stmts.drop_last(), angles, table, n, st0) {
            Err(e) => Err(e),
            Ok(st) => import_stmt(st, table, n, stmts.last(), angles[stmts.len() - 1]),
        }
    }
}

/// The views of a program's statements.
pub open spec fn stmt_views(p: QasmProgram) -> Seq<StmtView> {
    p.statements@.map_values(|s: QasmStmt| s@)
}

/// The views of a sequence of strings.
pub open spec fn string_views(ws: Seq<String>) -> Seq<Seq<char>> {
    ws.map_values(|w: String| w@)
}

/// The views of the per-statement angle lists.
pub open spec fn angle_lists(a: Seq<Vec<u64>>) -> Seq<Seq<u64>> {
    a.map_values(|v: Vec<u64>| v@)
}

/// The importer's state before the first statement.
pub open spec fn initial_state(n: nat, warnings: Seq<Seq<char>>) -> ImportState {
    ImportState {
        gates: Seq::empty(),
        measurements: Seq::empty(),
        next_col: Seq::new(n, |q: int| 0usize),
        warnings,
    }
}

/// What importing a program gives: no qubits is an error; otherwise the
/// statements are applied in order and the first resolution or placement
/// error ends the import.
pub open spec fn import_outcome(p: QasmProgram, angles: Seq<Seq<u64>>, r: Result<QasmImportResult, QasmError>) -> bool {
    let sv = stmt_views(p);
    let n = qreg_total(sv);
    if n == 0 {
        r == Err::<QasmImportResult, QasmError>(QasmError::EmptyCircuit)
    } else {
        match import_steps(sv, angles, qreg_table(sv), n as usize, initial_state(n, string_views(p.warnings@))) {
            Err(m) => r matches Err(QasmError::ParseError(e)) && e@ == m,
            Ok(st) => r matches Ok(res) && {
                &&& has_default_wires(res.circuit@.qubits, n)
                &&& res.circuit@.gates == st.gates
                &&& res.circuit@.measurements == st.measurements
                &&& string_views(res.warnings@) == st.warnings
            },
        }
    }
}

/// Every gate statement has one angle per parameter.
pub open spec fn angles_match(p: QasmProgram, angles: Seq<Seq<u64>>) -> bool {
    &&& angles.len() == p.statements@.len()
    &&& forall|i: int| 0 <= i < angles.len() ==> match #[trigger] stmt_views(p)[i] {
        StmtView::Gate { params, .. } => angles[i].len() == params.len(),
        _ => true,
    }
}

proof fn lemma_qreg_table_bounds(stmts: Seq<StmtView>)
    ensures
        forall|k: int| 0 <= k < qreg_table(stmts).len() ==> (#[trigger] qreg_table(stmts)[k]).1 + qreg_table(stmts)[k].2 <= qreg_total(stmts),
    decreases stmts.len(),
{
    if stmts.len() > 0 {
        let prev = stmts.drop_last();
        lemma_qreg_table_bounds(prev);
        let t = qreg_table(stmts);
        assert forall|k: int| 0 <= k < t.len() implies (#[trigger] t[k]).1 + t[k].2 <= qreg_total(stmts) by {
            if k < qreg_table(prev).len() {
                assert(t[k] == qreg_table(prev)[k]);
            }
        }
    }
}

proof fn lemma_op_count_prefix(stmts: Seq<StmtView>, i: int)
    requires
        0 <= i <= stmts.len(),
    ensures
        op_count(stmts.take(i)) <= op_count(stmts),
    decreases stmts.len() - i,
{
    if i < stmts.len() {
        lemma_op_count_prefix(stmts, i + 1);
        assert(stmts.take(i + 1).drop_last() =~= stmts.take(i));
    } else {
        assert(stmts.take(i) =~= stmts);
    }
}

proof fn lemma_latest_bound(nc: Seq<usize>, qs: Seq<usize>, b: nat)
    requires
        forall|k: int| 0 <= k < qs.len() ==> (#[trigger] qs[k]) < nc.len() && nc[qs[k] as int] <= b,
    ensures
        latest(nc, qs) <= b,
    decreases qs.len(),
{
    if qs.len() > 0 {
        lemma_latest_bound(nc, qs.drop_last(), b);
    }
}

/// A declared quantum register.
struct QregEntry {
    name: String,
    base: usize,
    size: usize,
}

spec fn entry_views(t: Seq<QregEntry>) -> Seq<QregModel> {
    t.map_values(|e: QregEntry| (e.name@, e.base as nat, e.size as nat))
}

spec fn resolved_view(r: Result<usize, String>) -> Result<usize, Seq<char>> {
    match r {
        Ok(q) => Ok(q),
        Err(e) => Err(e@),
    }
}

spec fn table_within(t: Seq<QregModel>, n: nat) -> bool {
    forall|k: int| 0 <= k < t.len() ==> (#[trigger] t[k]).1 + t[k].2 <= n
}

fn resolve_ref(table: &Vec<QregEntry>, r: &RegRef, n: usize) -> (res: Result<usize, String>)
    requires
        table_within(entry_views(table@), n as nat),
    ensures
        resolved_view(res) == resolve(entry_views(table@), reg_view(*r)),
        res matches Ok(q) ==> q < n,
{
    let ghost tv = entry_views(table@);
    let ghost p = named(r.name@);
    let mut k: usize = 0;
    while k < table.len()
        invariant
            k <= table@.len(),
            tv == entry_views(table@),
            table_within(tv, n as nat),
            p == named(r.name@),
            forall|j: int| 0 <= j < k ==> !p(#[trigger] tv[j]),
        decreases table.len() - k,
    {
        assert(tv[k as int] == (table@[k as int].name@, table@[k as int].base as nat, table@[k as int].size as nat));
        if table[k].name == r.name {
            proof { lemma_first_match_at(tv, p, k as int); }
            if r.index >= table[k].size {
                let mut m = String::from_str("Index ");
                push_decimal(&mut m, r.index);
                m.append(" out of bounds for register '");
                m.append(r.name.as_str());
                m.append("' (size ");
                push_decimal(&mut m, table[k].size);
                m.append(")");
                return Err(m);
            }
            return Ok(table[k].base + r.index);
        }
        k = k + 1;
    }
    proof { lemma_first_match_none(tv, p); }
    let mut m = String::from_str("Undefined quantum register '");
    m.append(r.name.as_str());
    m.append("'");
    Err(m)
}

fn resolve_refs(table: &Vec<QregEntry>, rs: &Vec<RegRef>, n: usize) -> (res: Result<Vec<usize>, String>)
    requires
        table_within(entry_views(table@), n as nat),
    ensures
        match res {
            Ok(qs) => resolve_all(entry_views(table@), regs_view(rs@)) == Ok::<Seq<usize>, Seq<char>>(qs@)
                && forall|k: int| 0 <= k < qs@.len() ==> #[trigger] qs@[k] < n,
            Err(e) => resolve_all(entry_views(table@), regs_view(rs@)) == Err::<Seq<usize>, Seq<char>>(e@),
        },
{
    let ghost tv = entry_views(table@);
    let ghost rv = regs_view(rs@);
    let mut qs: Vec<usize> = Vec::new();
    let mut i: usize = 0;
    while i < rs.len()
        invariant
            i <= rs@.len(),
            tv == entry_views(table@),
            rv == regs_view(rs@),
            table_within(tv, n as nat),
            resolve_all(tv, rv.take(i as int)) == Ok::<Seq<usize>, Seq<char>>(qs@),
            forall|k: int| 0 <= k < qs@.len() ==> #[trigger] qs@[k] < n,
        decreases rs.len() - i,
    {
        assert(rv.take(i as int + 1).drop_last() =~= rv.take(i as int));
        assert(rv.take(i as int + 1).last() == reg_view(rs@[i as int]));
        match resolve_ref(table, &rs[i], n) {
            Ok(q) => {
                qs.push(q);
            },
            Err(e) => {
                proof {
                    lemma_resolve_all_stops(tv, rv, i as int);
                }
                return Err(e);
            },
        }
        i = i + 1;
    }
    assert(rv.take(rs@.len() as int) =~= rv);
    Ok(qs)
}

proof fn lemma_resolve_all_stops(tv: Seq<QregModel>, rv: Seq<(Seq<char>, usize)>, i: int)
    requires
        0 <= i < rv.len(),
        resolve_all(tv, rv.take(i + 1)) is Err,
    ensures
        resolve_all(tv, rv) == resolve_all(tv, rv.take(i + 1)),
    decreases rv.len() - i,
{
    if i + 1 < rv.len() {
        assert(rv.take(i + 2).drop_last() =~= rv.take(i + 1));
        lemma_resolve_all_stops(tv, rv, i + 1);
    } else {
        assert(rv.take(i + 1) =~= rv);
    }
}

/// The importer's working state.
struct Importer {
    circuit: Circuit,
    next_col: Vec<usize>,
    warnings: Vec<String>,
}

impl Importer {
    spec fn state(&self) -> ImportState {
        ImportState {
            gates: self.circuit@.gates,
            measurements: self.circuit@.measurements,
            next_col: self.next_col@,
            warnings: string_views(self.warnings@),
        }
    }

    /// Well formed for `n` qubits, every next-free column at most `b`.
    spec fn within(&self, n: usize, b: nat) -> bool {
        &&& has_default_wires(self.circuit@.qubits, n as nat)
        &&& circuit_valid(self.circuit@)
        &&& self.next_col@.len() == n
        &&& forall|q: int| 0 <= q < n ==> #[trigger] self.next_col@[q] <= b
    }

    fn latest_column(&self, qs: &Vec<usize>) -> (c: usize)
        requires
            forall|k: int| 0 <= k < qs@.len() ==> #[trigger] qs@[k] < self.next_col@.len(),
        ensures
            c == latest(self.next_col@, qs@),
    {
        let mut c: usize = 0;
        let mut j: usize = 0;
        while j < qs.len()
            invariant
                j <= qs@.len(),
                forall|k: int| 0 <= k < qs@.len() ==> #[trigger] qs@[k] < self.next_col@.len(),
                c == latest(self.next_col@, qs@.take(j as int)),
            decreases qs.len() - j,
        {
            assert(qs@.take(j as int + 1).drop_last() =~= qs@.take(j as int));
            let v = self.next_col[qs[j]];
            if v > c {
                c = v;
            }
            j = j + 1;
        }
        assert(qs@.take(qs@.len() as int) =~= qs@);
        c
    }

    fn bump(&mut self, qs: &Vec<usize>, v: usize)
        requires
            forall|k: int| 0 <= k < qs@.len() ==> #[trigger] qs@[k] < old(self).next_col@.len(),
        ensures
            final(self).next_col@ == bumped(old(self).next_col@, qs@, v),
            final(self).circuit == old(self).circuit,
            final(self).warnings == old(self).warnings,
    {
        let len = self.next_col.len();
        let mut j: usize = 0;
        while j < qs.len()
            invariant
                j <= qs@.len(),
                len == old(self).next_col@.len(),
                self.next_col@.len() == old(self).next_col@.len(),
                forall|k: int| 0 <= k < qs@.len() ==> #[trigger] qs@[k] < old(self).next_col@.len(),
                self.next_col@ == bumped(old(self).next_col@, qs@.take(j as int), v),
                self.circuit == old(self).circuit,
                self.warnings == old(self).warnings,
            decreases qs.len() - j,
        {
            let q = qs[j];
            let ghost prev = self.next_col@;
            self.next_col.set(q, v);
            proof {
                let t1 = qs@.take(j as int + 1);
                assert(t1 =~= qs@.take(j as int).push(q));
                assert forall|x: int| 0 <= x < self.next_col@.len() implies
                    #[trigger] self.next_col@[x] == bumped(old(self).next_col@, t1, v)[x] by {
                    vstd::seq_lib::lemma_seq_contains_after_push(qs@.take(j as int), q, x as usize);
                    assert(prev[x] == bumped(old(self).next_col@, qs@.take(j as int), v)[x]);
                }
                assert(self.next_col@ =~= bumped(old(self).next_col@, t1, v));
            }
            j = j + 1;
        }
        assert(qs@.take(qs@.len() as int) =~= qs@);
    }
}

/// How many placements a statement can make.
pub open spec fn stmt_weight(st: StmtView) -> nat {
    match st {
        StmtView::Gate { .. } => 1nat,
        StmtView::Measure { .. } => 1nat,
        StmtView::Barrier(qs) => qs.len(),
        _ => 0nat,
    }
}

proof fn lemma_mapping_within(name: Seq<char>, params: Seq<u64>, qs: Seq<usize>, n: usize)
    requires
        forall|k: int| 0 <= k < qs.len() ==> #[trigger] qs[k] < n,
    ensures
        gate_mapping(name, params, qs) matches Ok((g, ts, cs)) ==> (
            (forall|k: int| 0 <= k < ts.len() ==> #[trigger] ts[k] < n)
            && (forall|k: int| 0 <= k < cs.len() ==> #[trigger] cs[k] < n)),
{
    if qs.len() > 0 { assert(qs[0] < n); }
    if qs.len() > 1 { assert(qs[1] < n); }
    if qs.len() > 2 { assert(qs[2] < n); }
}

proof fn lemma_barrier_stops(st: ImportState, tv: Seq<QregModel>, rv: Seq<(Seq<char>, usize)>, i: int)
    requires
        0 <= i < rv.len(),
        barrier_steps(st, tv, rv.take(i + 1)) is Err,
    ensures
        barrier_steps(st, tv, rv) == barrier_steps(st, tv, rv.take(i + 1)),
    decreases rv.len() - i,
{
    if i + 1 < rv.len() {
        assert(rv.take(i + 2).drop_last() =~= rv.take(i + 1));
        lemma_barrier_stops(st, tv, rv, i + 1);
    } else {
        assert(rv.take(i + 1) =~= rv);
    }
}

fn concat_indices(a: &Vec<usize>, b: &Vec<usize>) -> (r: Vec<usize>)
    ensures
        r@ == a@ + b@,
{
    let mut r: Vec<usize> = Vec::new();
    let mut i: usize = 0;
    while i < a.len()
        invariant
            i <= a@.len(),
            r@ == a@.take(i as int),
        decreases a.len() - i,
    {
        r.push(a[i]);
        i = i + 1;
        assert(r@ == a@.take(i as int));
    }
    let mut j: usize = 0;
    while j < b.len()
        invariant
            j <= b@.len(),
            r@ == a@ + b@.take(j as int),
        decreases b.len() - j,
    {
        r.push(b[j]);
        j = j + 1;
        assert(r@ =~= a@ + b@.take(j as int));
    }
    assert(b@.take(b@.len() as int) =~= b@);
    assert(a@.take(a@.len() as int) =~= a@);
    r
}

impl Importer {
    fn step_gate(&mut self, table: &Vec<QregEntry>, n: usize, name: &String, qubits: &Vec<RegRef>, angles: &Vec<u64>, Ghost(b): Ghost<nat>)
        -> (r: Result<(), String>)
        requires
            old(self).within(n, b),
            b + 1 <= usize::MAX,
            table_within(entry_views(table@), n as nat),
        ensures
            r is Ok ==> final(self).within(n, b + 1),
            (match r {
                Ok(_) => (match resolve_all(entry_views(table@), regs_view(qubits@)) {
                    Err(_) => false,
                    Ok(qs) => (match gate_mapping(name@, angles@, qs) {
                        Err(w) => final(self).state() == (ImportState { warnings: old(self).state().warnings.push(w), ..old(self).state() }),
                        Ok((g, ts, cs)) => place_gate(old(self).state(), g, ts, cs, n) == Ok::<ImportState, Seq<char>>(final(self).state()),
                    }),
                }),
                Err(e) => (match resolve_all(entry_views(table@), regs_view(qubits@)) {
                    Err(m) => m == e@,
                    Ok(qs) => (match gate_mapping(name@, angles@, qs) {
                        Err(_) => false,
                        Ok((g, ts, cs)) => place_gate(old(self).state(), g, ts, cs, n) == Err::<ImportState, Seq<char>>(e@),
                    }),
                }),
            }),
    {
        let qs = match resolve_refs(table, qubits, n) {
            Ok(qs) => qs,
            Err(e) => { return Err(e); },
        };
        proof { lemma_mapping_within(name@, angles@, qs@, n); }
        match map_gate_to_circuit(name.as_str(), angles.as_slice(), qs.as_slice()) {
            Err(w) => {
                self.warnings.push(w);
                assert(string_views(self.warnings@) =~= string_views(old(self).warnings@).push(w@));
                Ok(())
            },
            Ok((g, ts, cs)) => {
                let involved = concat_indices(&ts, &cs);
                let ghost tsv = ts@;
                let ghost csv = cs@;
                let ghost gv = g;
                let col = self.latest_column(&involved);
                proof { lemma_latest_bound(self.next_col@, involved@, b); }
                match self.circuit.add_gate(g, ts, cs, col) {
                    Err(e) => {
                        proof { reveal_strlit(""); }
                        return Err(e.message(""));
                    },
                    Ok(_) => {},
                }
                self.bump(&involved, col + 1);
                proof {
                    assert(self.state().gates == old(self).state().gates.push(PlacedGateView {
                        gate: gv, targets: tsv, controls: csv, column: col, parameters: Seq::empty() }));
                }
                Ok(())
            },
        }
    }
}

impl Importer {
    fn step_measure(&mut self, table: &Vec<QregEntry>, n: usize, qubit: &RegRef, Ghost(b): Ghost<nat>) -> (r: Result<(), String>)
        requires
            old(self).within(n, b),
            b + 1 <= usize::MAX,
            table_within(entry_views(table@), n as nat),
        ensures
            r is Ok ==> final(self).within(n, b + 1),
            (match r {
                Ok(_) => (match resolve(entry_views(table@), reg_view(*qubit)) {
                    Err(_) => false,
                    Ok(q) => final(self).state() == (ImportState {
                        measurements: old(self).state().measurements.push(Measurement { qubit_id: q, column: old(self).state().next_col[q as int] }),
                        next_col: old(self).state().next_col.update(q as int, (old(self).state().next_col[q as int] + 1) as usize),
                        ..old(self).state()
                    }),
                }),
                Err(e) => resolve(entry_views(table@), reg_view(*qubit)) == Err::<usize, Seq<char>>(e@),
            }),
    {
        let q = match resolve_ref(table, qubit, n) {
            Ok(q) => q,
            Err(e) => { return Err(e); },
        };
        let col = self.next_col[q];
        let _ = self.circuit.add_measurement(q, col);
        self.next_col.set(q, col + 1);
        Ok(())
    }

    fn step_barrier(&mut self, table: &Vec<QregEntry>, n: usize, qubits: &Vec<RegRef>, Ghost(b): Ghost<nat>) -> (r: Result<(), String>)
        requires
            old(self).within(n, b),
            b + qubits@.len() <= usize::MAX,
            table_within(entry_views(table@), n as nat),
        ensures
            r is Ok ==> final(self).within(n, b + qubits@.len()),
            (match r {
                Ok(_) => barrier_steps(old(self).state(), entry_views(table@), regs_view(qubits@)) == Ok::<ImportState, Seq<char>>(final(self).state()),
                Err(e) => barrier_steps(old(self).state(), entry_views(table@), regs_view(qubits@)) == Err::<ImportState, Seq<char>>(e@),
            }),
    {
        let ghost tv = entry_views(table@);
        let ghost rv = regs_view(qubits@);
        let ghost st0 = self.state();
        let mut j: usize = 0;
        while j < qubits.len()
            invariant
                j <= qubits@.len(),
                tv == entry_views(table@),
                rv == regs_view(qubits@),
                st0 == old(self).state(),
                b + qubits@.len() <= usize::MAX,
                table_within(tv, n as nat),
                self.within(n, (b + j) as nat),
                barrier_steps(st0, tv, rv.take(j as int)) == Ok::<ImportState, Seq<char>>(self.state()),
            decreases qubits.len() - j,
        {
            assert(rv.take(j as int + 1).drop_last() =~= rv.take(j as int));
            assert(rv.take(j as int + 1).last() == reg_view(qubits@[j as int]));
            let q = match resolve_ref(table, &qubits[j], n) {
                Ok(q) => q,
                Err(e) => {
                    proof { lemma_barrier_stops(st0, tv, rv, j as int); }
                    return Err(e);
                },
            };
            let col = self.next_col[q];
            let mut t: Vec<usize> = Vec::new();
            t.push(q);
            let ghost tq = t@;
            let added = self.circuit.add_gate(GateType::Barrier, t, Vec::new(), col);
            proof {
                assert(tq =~= seq![q]);
                assert(first_overlap(tq, Seq::<usize>::empty()) is None) by {
                    lemma_first_match_none(tq, is_one_of(Seq::<usize>::empty()));
                }
                assert(first_out_of_range(tq, n as nat) is None) by {
                    lemma_first_match_none(tq, at_least(n as nat));
                }
                assert(first_out_of_range(Seq::<usize>::empty(), n as nat) is None) by {
                    lemma_first_match_none(Seq::<usize>::empty(), at_least(n as nat));
                }
            }
            assert(added is Ok);
            self.next_col.set(q, col + 1);
            j = j + 1;
        }
        assert(rv.take(qubits@.len() as int) =~= rv);
        Ok(())
    }
}

proof fn lemma_qreg_total_prefix(stmts: Seq<StmtView>, i: int)
    requires
        0 <= i <= stmts.len(),
    ensures
        qreg_total(stmts.take(i)) <= qreg_total(stmts),
    decreases stmts.len() - i,
{
    if i < stmts.len() {
        lemma_qreg_total_prefix(stmts, i + 1);
        assert(stmts.take(i + 1).drop_last() =~= stmts.take(i));
    } else {
        assert(stmts.take(i) =~= stmts);
    }
}

proof fn lemma_import_stops(sv: Seq<StmtView>, av: Seq<Seq<u64>>, tv: Seq<QregModel>, n: usize, st0: ImportState, i: int)
    requires
        0 <= i < sv.len(),
        import_steps(sv.take(i + 1), av, tv, n, st0) is Err,
    ensures
        import_steps(sv, av, tv, n, st0) == import_steps(sv.take(i + 1), av, tv, n, st0),
    decreases sv.len() - i,
{
    if i + 1 < sv.len() {
        assert(sv.take(i + 2).drop_last() =~= sv.take(i + 1));
        lemma_import_stops(sv, av, tv, n, st0, i + 1);
    } else {
        assert(sv.take(i + 1) =~= sv);
    }
}

/// Builds the circuit a parsed OpenQASM program describes. The `qreg`
/// statements are laid out one after another; gates are placed as soon as
/// all their qubits are free (each qubit's next free column), measurements
/// and barriers at their qubit's next free column. Unsupported gates add a
/// warning; an undefined register, an index out of range or an invalid
/// placement ends the import with a parse error. `angles[i]` holds the
/// values (angle bits) of statement `i`'s parameters.
pub fn circuit_from_qasm(program: &QasmProgram, angles: &Vec<Vec<u64>>) -> (r: Result<QasmImportResult, QasmError>)
    requires
        angles_match(*program, angle_lists(angles@)),
        qreg_total(stmt_views(*program)) <= usize::MAX,
        op_count(stmt_views(*program)) < usize::MAX,
    ensures
        import_outcome(*program, angle_lists(angles@), r),
        r matches Ok(res) ==> circuit_valid(res.circuit@),
{
    let ghost sv = stmt_views(*program);
    let ghost av = angle_lists(angles@);
    let mut table: Vec<QregEntry> = Vec::new();
    let mut total: usize = 0;
    let mut i: usize = 0;
    while i < program.statements.len()
        invariant
            i <= program.statements@.len(),
            sv == stmt_views(*program),
            qreg_total(sv) <= usize::MAX,
            entry_views(table@) == qreg_table(sv.take(i as int)),
            total == qreg_total(sv.take(i as int)),
        decreases program.statements.len() - i,
    {
        assert(sv.take(i as int + 1).drop_last() =~= sv.take(i as int));
        assert(sv.take(i as int + 1).last() == program.statements@[i as int]@);
        proof { lemma_qreg_total_prefix(sv, i as int + 1); }
        match &program.statements[i] {
            QasmStmt::Qreg(name, size) => {
                table.push(QregEntry { name: name.clone(), base: total, size: *size });
                total = total + *size;
                assert(entry_views(table@) =~= qreg_table(sv.take(i as int + 1)));
            },
            _ => {},
        }
        i = i + 1;
    }
    assert(sv.take(sv.len() as int) =~= sv);
    if total == 0 {
        return Err(QasmError::EmptyCircuit);
    }
    proof { lemma_qreg_table_bounds(sv); }
    let ghost tv = qreg_table(sv);
    let circuit = Circuit::new(total);
    let mut next_col: Vec<usize> = Vec::new();
    let mut k: usize = 0;
    while k < total
        invariant
            k <= total,
            next_col@ == Seq::new(k as nat, |q: int| 0usize),
        decreases total - k,
    {
        next_col.push(0);
        k = k + 1;
        assert(next_col@ =~= Seq::new(k as nat, |q: int| 0usize));
    }
    let mut warnings: Vec<String> = Vec::new();
    let mut k: usize = 0;
    while k < program.warnings.len()
        invariant
            k <= program.warnings@.len(),
            warnings@ == program.warnings@.take(k as int),
        decreases program.warnings.len() - k,
    {
        warnings.push(program.warnings[k].clone());
        k = k + 1;
        assert(warnings@ =~= program.warnings@.take(k as int));
    }
    assert(program.warnings@.take(program.warnings@.len() as int) =~= program.warnings@);
    let mut imp = Importer { circuit, next_col, warnings };
    let ghost st0 = initial_state(total as nat, string_views(program.warnings@));
    assert(imp.state().gates =~= st0.gates);
    assert(imp.state().measurements =~= st0.measurements);
    assert(imp.state() == st0);
    let mut i: usize = 0;
    while i < program.statements.len()
        invariant
            i <= program.statements@.len(),
            sv == stmt_views(*program),
            av == angle_lists(angles@),
            angles_match(*program, av),
            tv == qreg_table(sv),
            entry_views(table@) == tv,
            table_within(tv, total as nat),
            total == qreg_total(sv),
            st0 == initial_state(total as nat, string_views(program.warnings@)),
            total > 0,
            op_count(sv) < usize::MAX,
            imp.within(total, op_count(sv.take(i as int))),
            import_steps(sv.take(i as int), av, tv, total, st0) == Ok::<ImportState, Seq<char>>(imp.state()),
        decreases program.statements.len() - i,
    {
        assert(sv.take(i as int + 1).drop_last() =~= sv.take(i as int));
        assert(sv.take(i as int + 1).last() == sv[i as int]);
        assert(sv[i as int] == program.statements@[i as int]@);
        assert(av[i as int] == angles@[i as int]@);
        proof { lemma_op_count_prefix(sv, i as int + 1); }
        let ghost w = op_count(sv.take(i as int));
        let ghost before = imp.state();
        let res = match &program.statements[i] {
            QasmStmt::Gate { name, params: _, qubits } => imp.step_gate(&table, total, name, qubits, &angles[i], Ghost(w)),
            QasmStmt::Measure { qubit, cbit: _ } => imp.step_measure(&table, total, qubit, Ghost(w)),
            QasmStmt::Barrier(qs) => imp.step_barrier(&table, total, qs, Ghost(w)),
            _ => Ok(()),
        };
        match res {
            Err(e) => {
                assert(import_stmt(before, tv, total, sv[i as int], av[i as int]) == Err::<ImportState, Seq<char>>(e@));
                assert(import_steps(sv.take(i as int + 1), av, tv, total, st0) == Err::<ImportState, Seq<char>>(e@));
                proof { lemma_import_stops(sv, av, tv, total, st0, i as int); }
                return Err(QasmError::ParseError(e));
            },
            Ok(_) => {},
        }
        i = i + 1;
    }
    assert(sv.take(sv.len() as int) =~= sv);
    Ok(QasmImportResult { circuit: imp.circuit, warnings: imp.warnings })
}

/// Whether `circuit_from_qasm` can take this program with these angles:
/// one angle per gate parameter, and register sizes and placements that
/// fit the machine's integers.
pub fn import_fits(program: &QasmProgram, angles: &Vec<Vec<u64>>) -> (b: bool)
    ensures
        b == (angles_match(*program, angle_lists(angles@))
            && qreg_total(stmt_views(*program)) <= usize::MAX
            && op_count(stmt_views(*program)) < usize::MAX),
{
    let ghost sv = stmt_views(*program);
    let ghost av = angle_lists(angles@);
    if angles.len() != program.statements.len() {
        return false;
    }
    let mut total: u128 = 0;
    let mut ops: u128 = 0;
    let mut i: usize = 0;
    while i < program.statements.len()
        invariant
            i <= program.statements@.len(),
            angles@.len() == program.statements@.len(),
            sv == stmt_views(*program),
            av == angle_lists(angles@),
            total == qreg_total(sv.take(i as int)),
            ops == op_count(sv.take(i as int)),
            total <= usize::MAX,
            ops < usize::MAX,
            forall|j: int| 0 <= j < i ==> match #[trigger] sv[j] {
                StmtView::Gate { params, .. } => av[j].len() == params.len(),
                _ => true,
            },
        decreases program.statements.len() - i,
    {
        assert(sv.take(i as int + 1).drop_last() =~= sv.take(i as int));
        assert(sv.take(i as int + 1).last() == sv[i as int]);
        assert(sv[i as int] == program.statements@[i as int]@);
        assert(av[i as int] == angles@[i as int]@);
        proof {
            lemma_qreg_total_prefix(sv, i as int + 1);
            lemma_op_count_prefix(sv, i as int + 1);
        }
        match &program.statements[i] {
            QasmStmt::Qreg(_, size) => { total = total + *size as u128; },
            QasmStmt::Gate { params, .. } => {
                assert(params@.map_values(|e: crate::format::qasm_parse::ParamExpr| e@).len() == params@.len());
                if angles[i].len() != params.len() {
                    return false;
                }
                ops = ops + 1;
            },
            QasmStmt::Measure { .. } => { ops = ops + 1; },
            QasmStmt::Barrier(qs) => { ops = ops + qs.len() as u128; },
            _ => {},
        }
        if total > usize::MAX as u128 || ops >= usize::MAX as u128 {
            return false;
        }
        i = i + 1;
    }
    assert(sv.take(sv.len() as int) =~= sv);
    true
}

impl Circuit {
    /// Exports this circuit to OpenQASM 2.0 (see `circuit_to_qasm`).
    pub fn to_qasm(&self, angles: &Vec<String>) -> (r: Result<String, QasmError>)
        requires
            angles@.len() == self.gates@.len(),
        ensures
            self.qubits@.len() == 0 ==> r == Err::<String, QasmError>(QasmError::EmptyCircuit),
            self.qubits@.len() > 0 ==> (r matches Ok(s) && s@ == qasm_text(self@, angle_views(angles@))),
    {
        circuit_to_qasm(self, angles)
    }

    /// Builds a circuit from a parsed OpenQASM program (see `circuit_from_qasm`).
    pub fn from_qasm(program: &QasmProgram, angles: &Vec<Vec<u64>>) -> (r: Result<QasmImportResult, QasmError>)
        requires
            angles_match(*program, angle_lists(angles@)),
            qreg_total(stmt_views(*program)) <= usize::MAX,
            op_count(stmt_views(*program)) < usize::MAX,
        ensures
            import_outcome(*program, angle_lists(angles@), r),
            r matches Ok(res) ==> circuit_valid(res.circuit@),
    {
        circuit_from_qasm(program, angles)
    }
}


/// The rotation names map to the rotation about their own axis, and the
/// phase-gate aliases `p` and `u1` map exactly as `rz` does: one qubit and
/// one parameter give that rotation by the parameter on that qubit, with no
/// controls.
pub proof fn lemma_rotation_mapping(params: Seq<u64>, qs: Seq<usize>)
    requires
        params.len() == 1,
        qs.len() == 1,
    ensures
        gate_mapping("rx"@, params, qs) == Ok::<(GateType, Seq<usize>, Seq<usize>), Seq<char>>((GateType::Rx(params[0]), qs, Seq::empty())),
        gate_mapping("ry"@, params, qs) == Ok::<(GateType, Seq<usize>, Seq<usize>), Seq<char>>((GateType::Ry(params[0]), qs, Seq::empty())),
        gate_mapping("rz"@, params, qs) == Ok::<(GateType, Seq<usize>, Seq<usize>), Seq<char>>((GateType::Rz(params[0]), qs, Seq::empty())),
        gate_mapping("p"@, params, qs) == Ok::<(GateType, Seq<usize>, Seq<usize>), Seq<char>>((GateType::Rz(params[0]), qs, Seq::empty())),
        gate_mapping("u1"@, params, qs) == Ok::<(GateType, Seq<usize>, Seq<usize>), Seq<char>>((GateType::Rz(params[0]), qs, Seq::empty())),
{
    reveal_strlit("h");
    reveal_strlit("x");
    reveal_strlit("y");
    reveal_strlit("z");
    reveal_strlit("s");
    reveal_strlit("t");
    reveal_strlit("id");
    reveal_strlit("rx");
    reveal_strlit("ry");
    reveal_strlit("rz");
    reveal_strlit("p");
    reveal_strlit("u1");
    assert("id"@[0] == 'i' && "rx"@[0] == 'r' && "ry"@[0] == 'r' && "rz"@[0] == 'r' && "u1"@[0] == 'u');
    assert("rx"@[1] == 'x' && "ry"@[1] == 'y' && "rz"@[1] == 'z' && "u1"@[1] == '1' && "id"@[1] == 'd');
    assert("p"@[0] == 'p' && "h"@[0] == 'h' && "x"@[0] == 'x' && "y"@[0] == 'y' && "z"@[0] == 'z' && "s"@[0] == 's'
        && "t"@[0] == 't');
    assert(qs =~= seq![qs[0]]);
}

/// The phase-gate aliases are read exactly as `rz`, for every parameter
/// list and qubit list that is accepted.
pub proof fn lemma_phase_aliases(params: Seq<u64>, qs: Seq<usize>)
    ensures
        gate_mapping("p"@, params, qs) is Ok == gate_mapping("rz"@, params, qs) is Ok,
        gate_mapping("u1"@, params, qs) is Ok == gate_mapping("rz"@, params, qs) is Ok,
        gate_mapping("rz"@, params, qs) is Ok ==> gate_mapping("p"@, params, qs) == gate_mapping("rz"@, params, qs)
            && gate_mapping("u1"@, params, qs) == gate_mapping("rz"@, params, qs),
{
    reveal_strlit("h");
    reveal_strlit("x");
    reveal_strlit("y");
    reveal_strlit("z");
    reveal_strlit("s");
    reveal_strlit("t");
    reveal_strlit("id");
    reveal_strlit("rx");
    reveal_strlit("ry");
    reveal_strlit("rz");
    reveal_strlit("p");
    reveal_strlit("u1");
    assert("id"@[0] == 'i' && "rx"@[0] == 'r' && "ry"@[0] == 'r' && "rz"@[0] == 'r' && "u1"@[0] == 'u');
    assert("rx"@[1] == 'x' && "ry"@[1] == 'y' && "rz"@[1] == 'z' && "u1"@[1] == '1' && "id"@[1] == 'd');
    assert("p"@[0] == 'p' && "h"@[0] == 'h' && "x"@[0] == 'x' && "y"@[0] == 'y' && "z"@[0] == 'z' && "s"@[0] == 's'
        && "t"@[0] == 't');
    if params.len() == 1 && qs.len() == 1 {
        lemma_rotation_mapping(params, qs);
    }
}


/// The fixed gates map by name: each one-qubit name to its gate on the one
/// qubit; `cx` (or `CX`) and `cz` to that gate with the first qubit as control
/// and the second as target; `swap` to a swap of the two; `ccx` to a
/// Toffoli with the first two qubits as controls and the third as target.
/// Parameters play no part.
pub proof fn lemma_named_mapping(params: Seq<u64>, a: usize, b: usize, c: usize)
    ensures
        gate_mapping("h"@, params, seq![a]) == Ok::<(GateType, Seq<usize>, Seq<usize>), Seq<char>>((GateType::H, seq![a], Seq::empty())),
        gate_mapping("x"@, params, seq![a]) == Ok::<(GateType, Seq<usize>, Seq<usize>), Seq<char>>((GateType::X, seq![a], Seq::empty())),
        gate_mapping("y"@, params, seq![a]) == Ok::<(GateType, Seq<usize>, Seq<usize>), Seq<char>>((GateType::Y, seq![a], Seq::empty())),
        gate_mapping("z"@, params, seq![a]) == Ok::<(GateType, Seq<usize>, Seq<usize>), Seq<char>>((GateType::Z, seq![a], Seq::empty())),
        gate_mapping("s"@, params, seq![a]) == Ok::<(GateType, Seq<usize>, Seq<usize>), Seq<char>>((GateType::S, seq![a], Seq::empty())),
        gate_mapping("t"@, params, seq![a]) == Ok::<(GateType, Seq<usize>, Seq<usize>), Seq<char>>((GateType::T, seq![a], Seq::empty())),
        gate_mapping("id"@, params, seq![a]) == Ok::<(GateType, Seq<usize>, Seq<usize>), Seq<char>>((GateType::Identity, seq![a], Seq::empty())),
        gate_mapping("cx"@, params, seq![a, b]) == Ok::<(GateType, Seq<usize>, Seq<usize>), Seq<char>>((GateType::Cnot, seq![b], seq![a])),
        gate_mapping("CX"@, params, seq![a, b]) == Ok::<(GateType, Seq<usize>, Seq<usize>), Seq<char>>((GateType::Cnot, seq![b], seq![a])),
        gate_mapping("cz"@, params, seq![a, b]) == Ok::<(GateType, Seq<usize>, Seq<usize>), Seq<char>>((GateType::Cz, seq![b], seq![a])),
        gate_mapping("swap"@, params, seq![a, b]) == Ok::<(GateType, Seq<usize>, Seq<usize>), Seq<char>>((GateType::Swap, seq![a, b], Seq::empty())),
        gate_mapping("ccx"@, params, seq![a, b, c]) == Ok::<(GateType, Seq<usize>, Seq<usize>), Seq<char>>((GateType::Toffoli, seq![c], seq![a, b])),
{
    reveal_strlit("h");
    reveal_strlit("x");
    reveal_strlit("y");
    reveal_strlit("z");
    reveal_strlit("s");
    reveal_strlit("t");
    reveal_strlit("id");
    reveal_strlit("rx");
    reveal_strlit("ry");
    reveal_strlit("rz");
    reveal_strlit("p");
    reveal_strlit("u1");
    reveal_strlit("cx");
    reveal_strlit("CX");
    reveal_strlit("cz");
    reveal_strlit("swap");
    reveal_strlit("ccx");
    assert("id"@[0] == 'i' && "rx"@[0] == 'r' && "ry"@[0] == 'r' && "rz"@[0] == 'r' && "u1"@[0] == 'u');
    assert("rx"@[1] == 'x' && "ry"@[1] == 'y' && "rz"@[1] == 'z' && "u1"@[1] == '1' && "id"@[1] == 'd');
    assert("p"@[0] == 'p' && "h"@[0] == 'h' && "x"@[0] == 'x' && "y"@[0] == 'y' && "z"@[0] == 'z' && "s"@[0] == 's'
        && "t"@[0] == 't');
    assert("cx"@[0] == 'c' && "cz"@[0] == 'c' && "CX"@[0] == 'C' && "cx"@[1] == 'x' && "cz"@[1] == 'z' && "CX"@[1] == 'X');
    assert("swap"@[0] == 's' && "ccx"@[0] == 'c' && "ccx"@[1] == 'c');
}

} // verus!
