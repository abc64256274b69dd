//! The `.ket.json` document: its model and its mapping to and from circuits.
//!
//! A document holds a version string, optional name and description, the
//! qubit count, its gates (type name, targets, controls, column, parameters)
//! and the measurements. Turning text into a document and back is the JSON
//! layer's work; this module decides what a document means.
use vstd::prelude::*;
use vstd::string::*;
use crate::circuit::{Circuit, CircuitView, Measurement, PlacedGate, PlacedGateView, has_default_wires};
use crate::gate::GateType;
use crate::seqs::{first_match, lemma_first_match_at, lemma_first_match_none};
use crate::text::{chars_of, decimal, push_decimal, spells};

verus! {

/// The current version of the Ket JSON format.
pub const CURRENT_KET_VERSION: &'static str = "0.1.0";

/// Error type for JSON format operations.
#[derive(Debug, Clone, PartialEq)]
pub enum JsonError {
    /// IO error during a file operation.
    Io(String),
    /// JSON parsing error.
    Parse(String),
    /// Version mismatch or unsupported version.
    InvalidVersion { expected: String, found: String },
    /// Missing required field.
    MissingField(String),
    /// Qubit count does not match the wire count.
    InvalidQubitCount { expected: usize, found: usize },
    /// Invalid gate type string.
    InvalidGateType(String),
    /// Invalid gate structure.
    InvalidGate(String),
    /// Serialization error.
    Serialization(String),
}

/// The text a document error is shown with.
pub open spec fn json_error_text(e: JsonError) -> Seq<char> {
    match e {
        JsonError::Io(m) => "IO error: "@ + m@,
        JsonError::Parse(m) => "JSON parse error: "@ + m@,
        JsonError::InvalidVersion { expected, found } => "Invalid version: expected "@ + expected@ + ", found "@ + found@,
        JsonError::MissingField(f) => "Missing required field: "@ + f@,
        JsonError::InvalidQubitCount { expected, found } =>
            "Qubit count mismatch: expected "@ + decimal(expected as nat) + ", found "@ + decimal(found as nat),
        JsonError::InvalidGateType(g) => "Invalid gate type: "@ + g@,
        JsonError::InvalidGate(m) => "Invalid gate: "@ + m@,
        JsonError::Serialization(m) => "Serialization error: "@ + m@,
    }
}

fn prefixed(prefix: &str, m: &String) -> (s: String)
    ensures
        s@ == prefix@ + m@,
{
    let mut s = String::from_str(prefix);
    s.append(m.as_str());
    s
}

impl JsonError {
    /// The error as text.
    pub fn message(&self) -> (s: String)
        ensures
            s@ == json_error_text(*self),
    {
        match self {
            JsonError::Io(m) => prefixed("IO error: ", m),
            JsonError::Parse(m) => prefixed("JSON parse error: ", m),
            JsonError::InvalidVersion { expected, found } => {
                let mut s = prefixed("Invalid version: expected ", expected);
                s.append(", found ");
                s.append(found.as_str());
                s
            },
            JsonError::MissingField(f) => prefixed("Missing required field: ", f),
            JsonError::InvalidQubitCount { expected, found } => {
                let mut s = String::from_str("Qubit count mismatch: expected ");
                push_decimal(&mut s, *expected);
                s.append(", found ");
                push_decimal(&mut s, *found);
                s
            },
            JsonError::InvalidGateType(g) => prefixed("Invalid gate type: ", g),
            JsonError::InvalidGate(m) => prefixed("Invalid gate: ", m),
            JsonError::Serialization(m) => prefixed("Serialization error: ", m),
        }
    }
}

/// A gate as the document stores it.
#[derive(Debug, Clone, PartialEq)]
pub struct JsonGate {
    /// Gate type name (e.g. "H", "CNOT", "Rx").
    pub gate_type: String,
    /// Target qubit indices.
    pub targets: Vec<usize>,
    /// Control qubit indices.
    pub controls: Vec<usize>,
    /// Column (time step).
    pub column: usize,
    /// Parameters (angle bits).
    pub params: Vec<u64>,
}

/// A measurement as the document stores it.
#[derive(Debug, Clone, Copy, PartialEq, Eq, Structural)]
pub struct JsonMeasurement {
    /// Qubit being measured.
    pub qubit: usize,
    /// Column (time step).
    pub column: usize,
}

/// The root of a `.ket.json` document.
#[derive(Debug, Clone, PartialEq)]
pub struct KetJson {
    /// Format version.
    pub ket_version: String,
    /// Circuit name.
    pub name: Option<String>,
    /// Circuit description.
    pub description: Option<String>,
    /// Number of qubits.
    pub qubits: usize,
    /// Gates.
    pub gates: Vec<JsonGate>,
    /// Measurements.
    pub measurements: Vec<JsonMeasurement>,
}

/// Model of a stored gate.
pub struct JsonGateView {
    pub gate_type: Seq<char>,
    pub targets: Seq<usize>,
    pub controls: Seq<usize>,
    pub column: usize,
    pub params: Seq<u64>,
}

impl View for JsonGate {
    type V = JsonGateView;

    open spec fn view(&self) -> JsonGateView {
        JsonGateView {
            gate_type: self.gate_type@,
            targets: self.targets@,
            controls: self.controls@,
            column: self.column,
            params: self.params@,
        }
    }
}

/// The name a gate type is stored under.
pub open spec fn spec_gate_type_name(g: GateType) -> Seq<char> {
    match g {
        GateType::H => "H"@,
        GateType::X => "X"@,
        GateType::Y => "Y"@,
        GateType::Z => "Z"@,
        GateType::S => "S"@,
        GateType::T => "T"@,
        GateType::Rx(_) => "Rx"@,
        GateType::Ry(_) => "Ry"@,
        GateType::Rz(_) => "Rz"@,
        GateType::Cnot => "CNOT"@,
        GateType::Cz => "CZ"@,
        GateType::Swap => "SWAP"@,
        GateType::Toffoli => "Toffoli"@,
        GateType::Barrier => "Barrier"@,
        GateType::Identity => "I"@,
        GateType::Custom(name) => name@,
    }
}

/// What gate type a name denotes, for the names that are not rotations and
/// not custom.
pub open spec fn fixed_gate_named(t: Seq<char>) -> Option<GateType> {
    if t == "H"@ { Some(GateType::H) }
    else if t == "X"@ { Some(GateType::X) }
    else if t == "Y"@ { Some(GateType::Y) }
    else if t == "Z"@ { Some(GateType::Z) }
    else if t == "S"@ { Some(GateType::S) }
    else if t == "T"@ { Some(GateType::T) }
    else if t == "CNOT"@ || t == "Cnot"@ { Some(GateType::Cnot) }
    else if t == "CZ"@ || t == "Cz"@ { Some(GateType::Cz) }
    else if t == "SWAP"@ || t == "Swap"@ { Some(GateType::Swap) }
    else if t == "Toffoli"@ || t == "CCNOT"@ { Some(GateType::Toffoli) }
    else if t == "Barrier"@ { Some(GateType::Barrier) }
    else if t == "I"@ || t == "Identity"@ { Some(GateType::Identity) }
    else { None }
}

/// Whether a name denotes a rotation (which needs an angle).
pub open spec fn is_rotation_name(t: Seq<char>) -> bool {
    t == "Rx"@ || t == "Ry"@ || t == "Rz"@
}

/// The rotation gate a name denotes, with angle `a`.
pub open spec fn rotation_named(t: Seq<char>, a: u64) -> GateType {
    if t == "Rx"@ { GateType::Rx(a) } else if t == "Ry"@ { GateType::Ry(a) } else { GateType::Rz(a) }
}

/// A stored gate that cannot be read: a rotation without a parameter.
pub open spec fn unreadable_gate(g: JsonGateView) -> bool {
    is_rotation_name(g.gate_type) && g.params.len() == 0
}

/// The message for a rotation stored without a parameter.
pub open spec fn missing_angle_message(t: Seq<char>) -> Seq<char> {
    t + " gate requires a rotation parameter"@
}

/// `g` is what gate type name `t` with parameters `params` denotes.
pub open spec fn denotes(t: Seq<char>, params: Seq<u64>, g: GateType) -> bool {
    match fixed_gate_named(t) {
        Some(f) => g == f,
        None => if is_rotation_name(t) {
            params.len() > 0 && g == rotation_named(t, params[0])
        } else {
            g matches GateType::Custom(name) && name@ == t
        },
    }
}

/// What reading a gate type name gives.
pub open spec fn gate_type_read(t: Seq<char>, params: Seq<u64>, r: Result<GateType, JsonError>) -> bool {
    if is_rotation_name(t) && params.len() == 0 {
        r matches Err(JsonError::InvalidGate(m)) && m@ == missing_angle_message(t)
    } else {
        r matches Ok(g) && denotes(t, params, g)
    }
}

/// Parameters a gate type carries (angle bits).
pub open spec fn spec_gate_params(g: GateType) -> Seq<u64> {
    match g {
        GateType::Rx(t) | GateType::Ry(t) | GateType::Rz(t) => seq![t],
        _ => Seq::empty(),
    }
}

/// How a placed gate is stored.
pub open spec fn stored_gate(g: PlacedGateView) -> JsonGateView {
    JsonGateView {
        gate_type: spec_gate_type_name(g.gate),
        targets: g.targets,
        controls: g.controls,
        column: g.column,
        params: if g.parameters.len() == 0 { spec_gate_params(g.gate) } else { g.parameters },
    }
}

/// `p` is what stored gate `j` reads as.
pub open spec fn read_gate(j: JsonGateView, p: PlacedGateView) -> bool {
    &&& denotes(j.gate_type, j.params, p.gate)
    &&& p.targets == j.targets
    &&& p.controls == j.controls
    &&& p.column == j.column
    &&& p.parameters == j.params
}

/// `doc` stores `c` (with the given name and description).
pub open spec fn stores(doc: KetJson, c: CircuitView, name: Option<String>, description: Option<String>) -> bool {
    &&& doc.ket_version@ == "0.1.0"@
    &&& doc.name == name
    &&& doc.description == description
    &&& doc.qubits == c.qubits.len()
    &&& doc.gates@.len() == c.gates.len()
    &&& forall|i: int| 0 <= i < c.gates.len() ==> (#[trigger] doc.gates@[i])@ == stored_gate(c.gates[i])
    &&& doc.measurements@.len() == c.measurements.len()
    &&& forall|i: int| 0 <= i < c.measurements.len() ==> (#[trigger] doc.measurements@[i]) == (JsonMeasurement {
        qubit: c.measurements[i].qubit_id,
        column: c.measurements[i].column,
    })
}

/// Stored-gate views of a document's gates.
pub open spec fn doc_gates(doc: KetJson) -> Seq<JsonGateView> {
    doc.gates@.map_values(|g: JsonGate| g@)
}

/// Parse a gate type name into a `GateType`; rotations take their angle
/// from `params[0]`.
pub fn parse_gate_type(type_str: &str, params: &[u64]) -> (r: Result<GateType, JsonError>)
    ensures
        gate_type_read(type_str@, params@, r),
{
    let t = chars_of(type_str);
    parse_gate_chars(&t, params)
}

#[verifier::rlimit(40)]
fn parse_gate_chars(t: &Vec<char>, params: &[u64]) -> (r: Result<GateType, JsonError>)
    ensures
        gate_type_read(t@, params@, r),
{
    proof {
        reveal_strlit("H"); reveal_strlit("X"); reveal_strlit("Y"); reveal_strlit("Z");
        reveal_strlit("S"); reveal_strlit("T"); reveal_strlit("Rx"); reveal_strlit("Ry"); reveal_strlit("Rz");
        reveal_strlit("CNOT"); reveal_strlit("Cnot"); reveal_strlit("CZ"); reveal_strlit("Cz");
        reveal_strlit("SWAP"); reveal_strlit("Swap"); reveal_strlit("Toffoli"); reveal_strlit("CCNOT");
        reveal_strlit("Barrier"); reveal_strlit("I"); reveal_strlit("Identity");
        reveal_strlit(" gate requires a rotation parameter");
    }
    if spells(t, "H") {
        assert(t@.len() == 1 && !is_rotation_name(t@));
        return Ok(GateType::H);
    }
    if spells(t, "X") {
        assert(t@.len() == 1 && !is_rotation_name(t@));
        return Ok(GateType::X);
    }
    if spells(t, "Y") {
        assert(t@.len() == 1 && !is_rotation_name(t@));
        return Ok(GateType::Y);
    }
    if spells(t, "Z") {
        assert(t@.len() == 1 && !is_rotation_name(t@));
        return Ok(GateType::Z);
    }
    if spells(t, "S") {
        assert(t@.len() == 1 && !is_rotation_name(t@));
        return Ok(GateType::S);
    }
    if spells(t, "T") {
        assert(t@.len() == 1 && !is_rotation_name(t@));
        return Ok(GateType::T);
    }
    if spells(t, "Rx") || spells(t, "Ry") || spells(t, "Rz") {
        let is_x = spells(t, "Rx");
        let is_y = spells(t, "Ry");
        assert(is_rotation_name(t@));
        assert(t@.len() == 2 && t@[0] == 'R');
        assert(fixed_gate_named(t@) is None) by {
            assert("CZ"@[0] != 'R' && "Cz"@[0] != 'R');
        }
        assert(!is_x && !is_y ==> t@ == "Rz"@);
        if params.len() == 0 {
            let mut m = if is_x { String::from_str("Rx") } else if is_y { String::from_str("Ry") } else { String::from_str("Rz") };
            m.append(" gate requires a rotation parameter");
            return Err(JsonError::InvalidGate(m));
        }
        let a = params[0];
        return Ok(if is_x { GateType::Rx(a) } else if is_y { GateType::Ry(a) } else { GateType::Rz(a) });
    }
    if spells(t, "CNOT") || spells(t, "Cnot") { return Ok(GateType::Cnot); }
    if spells(t, "CZ") || spells(t, "Cz") { return Ok(GateType::Cz); }
    if spells(t, "SWAP") || spells(t, "Swap") { return Ok(GateType::Swap); }
    if spells(t, "Toffoli") || spells(t, "CCNOT") { return Ok(GateType::Toffoli); }
    if spells(t, "Barrier") { return Ok(GateType::Barrier); }
    if spells(t, "I") || spells(t, "Identity") { return Ok(GateType::Identity); }
    Ok(GateType::Custom(string_of(t)))
}

/// A string holding the characters of `v`.
fn string_of(v: &Vec<char>) -> (s: String)
    ensures
        s@ == v@,
{
    let mut s = String::new();
    let mut i: usize = 0;
    while i < v.len()
        invariant
            i <= v.len(),
            s@ == v@.take(i as int),
        decreases v.len() - i,
    {
        crate::text::push_char(&mut s, v[i]);
        i = i + 1;
        assert(s@ == v@.take(i as int));
    }
    assert(v@.take(v.len() as int) == v@);
    s
}

/// The name a gate type is stored under.
pub fn gate_type_to_string(gate: &GateType) -> (s: String)
    ensures
        s@ == spec_gate_type_name(*gate),
{
    proof {
        reveal_strlit("H"); reveal_strlit("X"); reveal_strlit("Y"); reveal_strlit("Z");
        reveal_strlit("S"); reveal_strlit("T"); reveal_strlit("Rx"); reveal_strlit("Ry"); reveal_strlit("Rz");
        reveal_strlit("CNOT"); reveal_strlit("CZ"); reveal_strlit("SWAP"); reveal_strlit("Toffoli");
        reveal_strlit("Barrier"); reveal_strlit("I");
    }
    match gate {
        GateType::H => String::from_str("H"),
        GateType::X => String::from_str("X"),
        GateType::Y => String::from_str("Y"),
        GateType::Z => String::from_str("Z"),
        GateType::S => String::from_str("S"),
        GateType::T => String::from_str("T"),
        GateType::Rx(_) => String::from_str("Rx"),
        GateType::Ry(_) => String::from_str("Ry"),
        GateType::Rz(_) => String::from_str("Rz"),
        GateType::Cnot => String::from_str("CNOT"),
        GateType::Cz => String::from_str("CZ"),
        GateType::Swap => String::from_str("SWAP"),
        GateType::Toffoli => String::from_str("Toffoli"),
        GateType::Barrier => String::from_str("Barrier"),
        GateType::Identity => String::from_str("I"),
        GateType::Custom(name) => name.clone(),
    }
}

/// The parameters a gate type carries.
pub fn gate_params(gate: &GateType) -> (p: Vec<u64>)
    ensures
        p@ == spec_gate_params(*gate),
{
    let mut p = Vec::new();
    match gate {
        GateType::Rx(t) | GateType::Ry(t) | GateType::Rz(t) => { p.push(*t); },
        _ => {},
    }
    p
}

/// How a placed gate is stored.
pub fn placed_gate_to_json(gate: &PlacedGate) -> (j: JsonGate)
    ensures
        j@ == stored_gate(gate@),
{
    let g = gate.duplicate();
    JsonGate {
        gate_type: gate_type_to_string(&gate.gate),
        targets: g.target_qubits,
        controls: g.control_qubits,
        column: gate.column,
        params: if gate.parameters.len() == 0 { gate_params(&gate.gate) } else { g.parameters },
    }
}

/// How a measurement is stored.
pub fn measurement_to_json(measurement: &Measurement) -> (j: JsonMeasurement)
    ensures
        j == (JsonMeasurement { qubit: measurement.qubit_id, column: measurement.column }),
{
    JsonMeasurement { qubit: measurement.qubit_id, column: measurement.column }
}

/// Reads a stored gate.
pub fn json_gate_to_placed(json_gate: &JsonGate) -> (r: Result<PlacedGate, JsonError>)
    ensures
        unreadable_gate(json_gate@) ==> (r matches Err(JsonError::InvalidGate(m)) && m@ == missing_angle_message(json_gate@.gate_type)),
        !unreadable_gate(json_gate@) ==> (r matches Ok(p) && read_gate(json_gate@, p@)),
{
    let gate = parse_gate_type(json_gate.gate_type.as_str(), json_gate.params.as_slice())?;
    let mut targets: Vec<usize> = Vec::new();
    let mut i: usize = 0;
    while i < json_gate.targets.len()
        invariant
            i <= json_gate.targets.len(),
            targets@ == json_gate.targets@.take(i as int),
        decreases json_gate.targets.len() - i,
    {
        targets.push(json_gate.targets[i]);
        i = i + 1;
        assert(targets@ == json_gate.targets@.take(i as int));
    }
    assert(json_gate.targets@.take(json_gate.targets@.len() as int) == json_gate.targets@);
    let mut controls: Vec<usize> = Vec::new();
    let mut i: usize = 0;
    while i < json_gate.controls.len()
        invariant
            i <= json_gate.controls.len(),
            controls@ == json_gate.controls@.take(i as int),
        decreases json_gate.controls.len() - i,
    {
        controls.push(json_gate.controls[i]);
        i = i + 1;
        assert(controls@ == json_gate.controls@.take(i as int));
    }
    assert(json_gate.controls@.take(json_gate.controls@.len() as int) == json_gate.controls@);
    let mut params: Vec<u64> = Vec::new();
    let mut i: usize = 0;
    while i < json_gate.params.len()
        invariant
            i <= json_gate.params.len(),
            params@ == json_gate.params@.take(i as int),
        decreases json_gate.params.len() - i,
    {
        params.push(json_gate.params[i]);
        i = i + 1;
        assert(params@ == json_gate.params@.take(i as int));
    }
    assert(json_gate.params@.take(json_gate.params@.len() as int) == json_gate.params@);
    Ok(PlacedGate { gate, target_qubits: targets, control_qubits: controls, column: json_gate.column, parameters: params })
}

/// How a stored measurement is read.
pub fn json_measurement_to_measurement(json: &JsonMeasurement) -> (m: Measurement)
    ensures
        m == (Measurement { qubit_id: json.qubit, column: json.column }),
{
    Measurement { qubit_id: json.qubit, column: json.column }
}

/// Position of the first stored gate that cannot be read.
pub open spec fn first_unreadable(gs: Seq<JsonGateView>) -> Option<int> {
    first_match(gs, |g: JsonGateView| unreadable_gate(g))
}

/// `c` is the circuit that document `doc` describes.
pub open spec fn loaded_from(doc: KetJson, c: CircuitView) -> bool {
    &&& has_default_wires(c.qubits, doc.qubits as nat)
    &&& c.gates.len() == doc.gates@.len()
    &&& forall|i: int| 0 <= i < c.gates.len() ==> read_gate((#[trigger] doc.gates@[i])@, c.gates[i])
    &&& c.measurements.len() == doc.measurements@.len()
    &&& forall|i: int| 0 <= i < c.measurements.len() ==> (#[trigger] c.measurements[i]) == (Measurement {
        qubit_id: doc.measurements@[i].qubit,
        column: doc.measurements@[i].column,
    })
}

/// The larger of two numbers.
pub open spec fn larger(a: nat, b: nat) -> nat {
    if a < b { b } else { a }
}

/// `x` as a `usize`, saturating at `usize::MAX`.
pub open spec fn capped(x: nat) -> usize {
    if x > usize::MAX { usize::MAX } else { x as usize }
}

/// How many wires the qubit indices of `s` reach: one more than the
/// largest, 0 when there is none.
pub open spec fn index_span(s: Seq<usize>) -> nat
    decreases s.len(),
{
    if s.len() == 0 { 0 } else { larger(index_span(s.drop_last()), s.last() as nat + 1) }
}

/// How many wires the stored gates reach.
pub open spec fn gates_span(gs: Seq<JsonGateView>) -> nat
    decreases gs.len(),
{
    if gs.len() == 0 {
        0
    } else {
        larger(gates_span(gs.drop_last()), larger(index_span(gs.last().targets), index_span(gs.last().controls)))
    }
}

/// How many wires the stored measurements reach.
pub open spec fn measurements_span(ms: Seq<JsonMeasurement>) -> nat
    decreases ms.len(),
{
    if ms.len() == 0 { 0 } else { larger(measurements_span(ms.drop_last()), ms.last().qubit as nat + 1) }
}

/// How many wires the document's gates and measurements reach.
pub open spec fn doc_span(doc: KetJson) -> nat {
    larger(gates_span(doc_gates(doc)), measurements_span(doc.measurements@))
}

/// The indices of `s` reach at most `n` wires exactly when all are below `n`.
pub proof fn lemma_index_span(s: Seq<usize>, n: nat)
    ensures
        index_span(s) <= n <==> forall|k: int| 0 <= k < s.len() ==> #[trigger] s[k] < n,
    decreases s.len(),
{
    if s.len() > 0 {
        lemma_index_span(s.drop_last(), n);
        if forall|k: int| 0 <= k < s.len() ==> #[trigger] s[k] < n {
            assert forall|k: int| 0 <= k < s.drop_last().len() implies #[trigger] s.drop_last()[k] < n by {
                assert(s.drop_last()[k] == s[k]);
            }
        }
        if index_span(s) <= n {
            assert forall|k: int| 0 <= k < s.len() implies #[trigger] s[k] < n by {
                if k < s.len() - 1 {
                    assert(s.drop_last()[k] == s[k]);
                }
            }
        }
    }
}

/// The gates reach at most `n` wires exactly when all their qubit indices
/// are below `n`.
pub proof fn lemma_gates_span(gs: Seq<JsonGateView>, n: nat)
    ensures
        gates_span(gs) <= n <==> forall|i: int| 0 <= i < gs.len() ==>
            index_span((#[trigger] gs[i]).targets) <= n && index_span(gs[i].controls) <= n,
    decreases gs.len(),
{
    if gs.len() > 0 {
        lemma_gates_span(gs.drop_last(), n);
        if forall|i: int| 0 <= i < gs.len() ==> index_span((#[trigger] gs[i]).targets) <= n && index_span(gs[i].controls) <= n {
            assert forall|i: int| 0 <= i < gs.drop_last().len() implies
                index_span((#[trigger] gs.drop_last()[i]).targets) <= n && index_span(gs.drop_last()[i].controls) <= n by {
                assert(gs.drop_last()[i] == gs[i]);
            }
            assert(gs.last() == gs[gs.len() - 1]);
        }
        if gates_span(gs) <= n {
            assert forall|i: int| 0 <= i < gs.len() implies
                index_span((#[trigger] gs[i]).targets) <= n && index_span(gs[i].controls) <= n by {
                if i < gs.len() - 1 {
                    assert(gs.drop_last()[i] == gs[i]);
                }
            }
        }
    }
}

/// The measurements reach at most `n` wires exactly when all their qubits
/// are below `n`.
pub proof fn lemma_measurements_span(ms: Seq<JsonMeasurement>, n: nat)
    ensures
        measurements_span(ms) <= n <==> forall|i: int| 0 <= i < ms.len() ==> (#[trigger] ms[i]).qubit < n,
    decreases ms.len(),
{
    if ms.len() > 0 {
        lemma_measurements_span(ms.drop_last(), n);
        if forall|i: int| 0 <= i < ms.len() ==> (#[trigger] ms[i]).qubit < n {
            assert forall|i: int| 0 <= i < ms.drop_last().len() implies (#[trigger] ms.drop_last()[i]).qubit < n by {
                assert(ms.drop_last()[i] == ms[i]);
            }
        }
        if measurements_span(ms) <= n {
            assert forall|i: int| 0 <= i < ms.len() implies (#[trigger] ms[i]).qubit < n by {
                if i < ms.len() - 1 {
                    assert(ms.drop_last()[i] == ms[i]);
                }
            }
        }
    }
}

fn span_of(v: &Vec<usize>) -> (r: (usize, bool))
    ensures
        r.0 == capped(index_span(v@)),
        r.1 == (index_span(v@) > usize::MAX),
{
    let mut r: usize = 0;
    let mut over = false;
    let mut i: usize = 0;
    while i < v.len()
        invariant
            i <= v@.len(),
            r == capped(index_span(v@.take(i as int))),
            over == (index_span(v@.take(i as int)) > usize::MAX),
        decreases v.len() - i,
    {
        assert(v@.take(i as int + 1).drop_last() =~= v@.take(i as int));
        let x = v[i];
        let cand = if x == usize::MAX { usize::MAX } else { x + 1 };
        if x == usize::MAX {
            over = true;
        }
        if cand > r {
            r = cand;
        }
        i = i + 1;
    }
    assert(v@.take(v@.len() as int) =~= v@);
    (r, over)
}

/// How many wires the document's gates and measurements reach, saturating
/// at `usize::MAX`, and whether they reach beyond it.
fn doc_span_of(doc: &KetJson) -> (r: (usize, bool))
    ensures
        r.0 == capped(doc_span(*doc)),
        r.1 == (doc_span(*doc) > usize::MAX),
{
    let ghost gs = doc_gates(*doc);
    let mut g: usize = 0;
    let mut over = false;
    let mut i: usize = 0;
    while i < doc.gates.len()
        invariant
            i <= doc.gates@.len(),
            gs == doc_gates(*doc),
            g == capped(gates_span(gs.take(i as int))),
            over == (gates_span(gs.take(i as int)) > usize::MAX),
        decreases doc.gates.len() - i,
    {
        assert(gs.take(i as int + 1).drop_last() =~= gs.take(i as int));
        assert(gs.take(i as int + 1).last() == doc.gates@[i as int]@);
        let (t, tover) = span_of(&doc.gates[i].targets);
        let (c, cover) = span_of(&doc.gates[i].controls);
        if t > g {
            g = t;
        }
        if c > g {
            g = c;
        }
        over = over || tover || cover;
        i = i + 1;
    }
    assert(gs.take(gs.len() as int) =~= gs);
    let ghost ms = doc.measurements@;
    let mut m: usize = 0;
    let mut mover = false;
    let mut k: usize = 0;
    while k < doc.measurements.len()
        invariant
            k <= ms.len(),
            ms == doc.measurements@,
            m == capped(measurements_span(ms.take(k as int))),
            mover == (measurements_span(ms.take(k as int)) > usize::MAX),
        decreases doc.measurements.len() - k,
    {
        assert(ms.take(k as int + 1).drop_last() =~= ms.take(k as int));
        let x = doc.measurements[k].qubit;
        let cand = if x == usize::MAX { usize::MAX } else { x + 1 };
        if x == usize::MAX {
            mover = true;
        }
        if cand > m {
            m = cand;
        }
        k = k + 1;
    }
    assert(ms.take(ms.len() as int) =~= ms);
    (if g > m { g } else { m }, over || mover)
}

/// What reading document `doc` gives: a version error, the error of the
/// first gate that cannot be read, a qubit-count error when a gate or
/// measurement uses a qubit at or above the declared count (found: how many
/// wires they reach), or the circuit it describes.
pub open spec fn json_read(doc: KetJson, r: Result<Circuit, JsonError>) -> bool {
    if doc.ket_version@ != "0.1.0"@ {
        r matches Err(JsonError::InvalidVersion { expected, found })
            && expected@ == "0.1.0"@ && found@ == doc.ket_version@
    } else {
        match first_unreadable(doc_gates(doc)) {
            Some(i) => r matches Err(JsonError::InvalidGate(m)) && m@ == missing_angle_message(doc.gates@[i]@.gate_type),
            None => if doc_span(doc) > doc.qubits {
                r == Err::<Circuit, JsonError>(JsonError::InvalidQubitCount { expected: doc.qubits, found: capped(doc_span(doc)) })
            } else {
                r matches Ok(c) && loaded_from(doc, c@)
            },
        }
    }
}

/// Builds the circuit a `.ket.json` document describes: checks the version,
/// reads every gate (stopping at the first that cannot be read), gives the
/// circuit default wires and copies the measurements.
pub fn circuit_from_json(doc: &KetJson) -> (r: Result<Circuit, JsonError>)
    ensures
        json_read(*doc, r),
{
    proof { reveal_strlit("0.1.0"); }
    let version = chars_of(doc.ket_version.as_str());
    if !spells(&version, CURRENT_KET_VERSION) {
        return Err(JsonError::InvalidVersion {
            expected: String::from_str(CURRENT_KET_VERSION),
            found: doc.ket_version.clone(),
        });
    }
    let ghost gs = doc_gates(*doc);
    let ghost p = |g: JsonGateView| unreadable_gate(g);
    let mut gates: Vec<PlacedGate> = Vec::new();
    let mut i: usize = 0;
    while i < doc.gates.len()
        invariant
            i <= doc.gates@.len(),
            doc.ket_version@ == "0.1.0"@,
            gs == doc_gates(*doc),
            p == (|g: JsonGateView| unreadable_gate(g)),
            gates@.len() == i,
            forall|j: int| 0 <= j < i ==> !p(#[trigger] gs[j]),
            forall|j: int| 0 <= j < i ==> read_gate((#[trigger] doc.gates@[j])@, gates@[j]@),
        decreases doc.gates.len() - i,
    {
        assert(gs[i as int] == doc.gates@[i as int]@);
        match json_gate_to_placed(&doc.gates[i]) {
            Ok(g) => {
                gates.push(g);
            },
            Err(e) => {
                proof {
                    assert(unreadable_gate(doc.gates@[i as int]@));
                    assert(p(gs[i as int]));
                    lemma_first_match_at(gs, p, i as int);
                }
                return Err(e);
            },
        }
        i = i + 1;
    }
    proof {
        assert forall|j: int| 0 <= j < gs.len() implies !p(#[trigger] gs[j]) by {}
        lemma_first_match_none(gs, p);
    }
    let (need, beyond) = doc_span_of(doc);
    if beyond || need > doc.qubits {
        return Err(JsonError::InvalidQubitCount { expected: doc.qubits, found: need });
    }
    let mut measurements: Vec<Measurement> = Vec::new();
    let mut k: usize = 0;
    while k < doc.measurements.len()
        invariant
            k <= doc.measurements@.len(),
            measurements@.len() == k,
            forall|j: int| 0 <= j < k ==> (#[trigger] measurements@[j]) == (Measurement {
                qubit_id: doc.measurements@[j].qubit,
                column: doc.measurements@[j].column,
            }),
        decreases doc.measurements.len() - k,
    {
        measurements.push(json_measurement_to_measurement(&doc.measurements[k]));
        k = k + 1;
    }
    let fresh = Circuit::new(doc.qubits);
    let c = Circuit { qubits: fresh.qubits, gates, measurements };
    proof {
        assert forall|j: int| 0 <= j < c@.gates.len() implies read_gate((#[trigger] doc.gates@[j])@, c@.gates[j]) by {}
    }
    Ok(c)
}

/// The document that stores `circuit` with the given name and description.
pub fn circuit_to_json_with_metadata(circuit: &Circuit, name: Option<String>, description: Option<String>) -> (doc: KetJson)
    ensures
        stores(doc, circuit@, name, description),
{
    proof { reveal_strlit("0.1.0"); }
    let mut gates: Vec<JsonGate> = Vec::new();
    let mut i: usize = 0;
    while i < circuit.gates.len()
        invariant
            i <= circuit.gates@.len(),
            gates@.len() == i,
            forall|j: int| 0 <= j < i ==> (#[trigger] gates@[j])@ == stored_gate(circuit@.gates[j]),
        decreases circuit.gates.len() - i,
    {
        gates.push(placed_gate_to_json(&circuit.gates[i]));
        i = i + 1;
    }
    let mut measurements: Vec<JsonMeasurement> = Vec::new();
    let mut k: usize = 0;
    while k < circuit.measurements.len()
        invariant
            k <= circuit.measurements@.len(),
            measurements@.len() == k,
            forall|j: int| 0 <= j < k ==> (#[trigger] measurements@[j]) == (JsonMeasurement {
                qubit: circuit@.measurements[j].qubit_id,
                column: circuit@.measurements[j].column,
            }),
        decreases circuit.measurements.len() - k,
    {
        measurements.push(measurement_to_json(&circuit.measurements[k]));
        k = k + 1;
    }
    KetJson {
        ket_version: String::from_str(CURRENT_KET_VERSION),
        name,
        description,
        qubits: circuit.num_qubits(),
        gates,
        measurements,
    }
}

/// The document that stores `circuit`, without name or description.
pub fn circuit_to_json(circuit: &Circuit) -> (doc: KetJson)
    ensures
        stores(doc, circuit@, None, None),
{
    circuit_to_json_with_metadata(circuit, None, None)
}

} // verus!
