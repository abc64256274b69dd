//! What storing a circuit in a `.ket.json` document and reading it back gives.
use vstd::prelude::*;
use vstd::string::*;
use crate::circuit::{Circuit, PlacedGateView, has_default_wires, indices_below};
use crate::format::json::{
    JsonError, JsonGateView, KetJson, doc_gates, fixed_gate_named, is_rotation_name, json_read,
    read_gate, spec_gate_type_name, stored_gate, stores, unreadable_gate, gate_type_read, spec_gate_params, index_span, lemma_gates_span, lemma_index_span,
    lemma_measurements_span,
};
use crate::gate::{GateType, same_gate};
use crate::seqs::lemma_first_match_none;

verus! {

/// A gate whose type a document gives back unchanged: a custom gate whose
/// name is not one of the built-in names, a rotation whose stored
/// parameters (if any) start with its own angle, or any other gate.
pub open spec fn survives_storage(g: PlacedGateView) -> bool {
    match g.gate {
        GateType::Custom(name) => fixed_gate_named(name@) is None && !is_rotation_name(name@),
        GateType::Rx(a) | GateType::Ry(a) | GateType::Rz(a) => g.parameters.len() == 0 || g.parameters[0] == a,
        _ => true,
    }
}

/// The built-in gate names, by length and first character.
proof fn lemma_builtin_names()
    ensures
        "H"@[0] == 'H' && "X"@[0] == 'X' && "Y"@[0] == 'Y' && "Z"@[0] == 'Z' && "S"@[0] == 'S' && "T"@[0] == 'T' && "Rx"@[0] == 'R' && "Ry"@[0] == 'R' && "Rz"@[0] == 'R' && "CNOT"@[0] == 'C' && "Cnot"@[0] == 'C' && "CZ"@[0] == 'C' && "Cz"@[0] == 'C' && "SWAP"@[0] == 'S' && "Swap"@[0] == 'S' && "Toffoli"@[0] == 'T' && "CCNOT"@[0] == 'C' && "Barrier"@[0] == 'B' && "I"@[0] == 'I' && "Identity"@[0] == 'I',
        "H"@.len() == 1 && "X"@.len() == 1 && "Y"@.len() == 1 && "Z"@.len() == 1 && "S"@.len() == 1 && "T"@.len() == 1 && "Rx"@.len() == 2 && "Ry"@.len() == 2 && "Rz"@.len() == 2 && "CNOT"@.len() == 4 && "Cnot"@.len() == 4 && "CZ"@.len() == 2 && "Cz"@.len() == 2 && "SWAP"@.len() == 4 && "Swap"@.len() == 4 && "Toffoli"@.len() == 7 && "CCNOT"@.len() == 5 && "Barrier"@.len() == 7 && "I"@.len() == 1 && "Identity"@.len() == 8,
        "Rx"@[1] == 'x' && "Ry"@[1] == 'y' && "Rz"@[1] == 'z' && "CZ"@[1] == 'Z' && "Cz"@[1] == 'z',
        "CNOT"@[1] == 'N' && "Cnot"@[1] == 'n' && "SWAP"@[1] == 'W' && "Swap"@[1] == 'w',
{
    reveal_strlit("H");
    reveal_strlit("X");
    reveal_strlit("Y");
    reveal_strlit("Z");
    reveal_strlit("S");
    reveal_strlit("T");
    reveal_strlit("Rx");
    reveal_strlit("Ry");
    reveal_strlit("Rz");
    reveal_strlit("CNOT");
    reveal_strlit("Cnot");
    reveal_strlit("CZ");
    reveal_strlit("Cz");
    reveal_strlit("SWAP");
    reveal_strlit("Swap");
    reveal_strlit("Toffoli");
    reveal_strlit("CCNOT");
    reveal_strlit("Barrier");
    reveal_strlit("I");
    reveal_strlit("Identity");
}

proof fn lemma_stored_gate_reads_back(g: PlacedGateView, p: PlacedGateView)
    requires
        survives_storage(g),
        read_gate(stored_gate(g), p),
    ensures
        same_gate(p.gate, g.gate),
        p.targets == g.targets,
        p.controls == g.controls,
        p.column == g.column,
{
    lemma_builtin_names();
    match g.gate {
        GateType::Custom(name) => {
            assert(p.gate matches GateType::Custom(n2) && n2@ == name@);
        },
        _ => {},
    }
}

proof fn lemma_stored_name_not_rotation(g: PlacedGateView)
    requires
        survives_storage(g),
    ensures
        is_rotation_name(spec_gate_type_name(g.gate)) ==> stored_gate(g).params.len() > 0,
{
    lemma_builtin_names();
}

/// Writing a gate type's name and parameters (`gate_type_to_string`,
/// `gate_params`) and reading them back (`parse_gate_type`) gives the same
/// gate type, for every type but a custom gate named like a built-in one.
pub proof fn lemma_gate_type_roundtrip(g: GateType, r: Result<GateType, JsonError>)
    requires
        g matches GateType::Custom(name) ==> fixed_gate_named(name@) is None && !is_rotation_name(name@),
        gate_type_read(spec_gate_type_name(g), spec_gate_params(g), r),
    ensures
        r matches Ok(h) && same_gate(h, g),
{
    let pg = PlacedGateView { gate: g, targets: Seq::empty(), controls: Seq::empty(), column: 0, parameters: Seq::empty() };
    assert(survives_storage(pg));
    lemma_stored_name_not_rotation(pg);
    assert(stored_gate(pg).params == spec_gate_params(g));
    let h = r->Ok_0;
    let ph = PlacedGateView { gate: h, targets: Seq::empty(), controls: Seq::empty(), column: 0, parameters: spec_gate_params(g) };
    assert(read_gate(stored_gate(pg), ph));
    lemma_stored_gate_reads_back(pg, ph);
}

/// Storing a circuit in a document and reading the document back gives a
/// circuit with as many wires (with default labels), the same gates in
/// type, targets, controls and column, and the same measurements, provided
/// every gate's type survives storage and every qubit index in use names a
/// wire of the circuit.
pub proof fn lemma_json_roundtrip(c: Circuit, name: Option<String>, description: Option<String>, doc: KetJson, r: Result<Circuit, JsonError>)
    requires
        stores(doc, c@, name, description),
        json_read(doc, r),
        forall|i: int| 0 <= i < c@.gates.len() ==> survives_storage(#[trigger] c@.gates[i]),
        indices_below(c@, c@.qubits.len()),
    ensures
        r matches Ok(l) && {
            &&& has_default_wires(l@.qubits, c@.qubits.len())
            &&& l@.gates.len() == c@.gates.len()
            &&& forall|i: int| 0 <= i < c@.gates.len() ==> {
                &&& same_gate((#[trigger] l@.gates[i]).gate, c@.gates[i].gate)
                &&& l@.gates[i].targets == c@.gates[i].targets
                &&& l@.gates[i].controls == c@.gates[i].controls
                &&& l@.gates[i].column == c@.gates[i].column
            }
            &&& l@.measurements == c@.measurements
        },
{
    let gs = doc_gates(doc);
    let p = |g: JsonGateView| unreadable_gate(g);
    assert forall|j: int| 0 <= j < gs.len() implies !p(#[trigger] gs[j]) by {
        assert(gs[j] == doc.gates@[j]@);
        assert(doc.gates@[j]@ == stored_gate(c@.gates[j]));
        assert(survives_storage(c@.gates[j]));
        lemma_stored_name_not_rotation(c@.gates[j]);
    }
    lemma_first_match_none(gs, p);
    let n = c@.qubits.len();
    assert forall|i: int| 0 <= i < gs.len() implies
        index_span((#[trigger] gs[i]).targets) <= n && index_span(gs[i].controls) <= n by {
        assert(gs[i] == stored_gate(c@.gates[i]));
        lemma_index_span(gs[i].targets, n);
        lemma_index_span(gs[i].controls, n);
    }
    lemma_gates_span(gs, n);
    lemma_measurements_span(doc.measurements@, n);
    assert forall|i: int| 0 <= i < doc.measurements@.len() implies (#[trigger] doc.measurements@[i]).qubit < n by {
        assert(doc.measurements@[i].qubit == c@.measurements[i].qubit_id);
    }
    let l = r->Ok_0;
    assert forall|i: int| 0 <= i < c@.gates.len() implies {
        &&& same_gate((#[trigger] l@.gates[i]).gate, c@.gates[i].gate)
        &&& l@.gates[i].targets == c@.gates[i].targets
        &&& l@.gates[i].controls == c@.gates[i].controls
        &&& l@.gates[i].column == c@.gates[i].column
    } by {
        assert(doc.gates@[i]@ == stored_gate(c@.gates[i]));
        assert(survives_storage(c@.gates[i]));
        lemma_stored_gate_reads_back(c@.gates[i], l@.gates[i]);
    }
    assert(l@.measurements =~= c@.measurements);
}

} // verus!
