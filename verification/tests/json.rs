use ketgrid::circuit::Circuit;
use ketgrid::format::json::{
    circuit_from_json, circuit_to_json, circuit_to_json_with_metadata, gate_params, gate_type_to_string, parse_gate_type,
    JsonError, JsonGate, JsonMeasurement, KetJson, CURRENT_KET_VERSION,
};
use ketgrid::gate::GateType;

fn bits(x: f64) -> u64 {
    x.to_bits()
}

fn jgate(t: &str, targets: Vec<usize>, controls: Vec<usize>, column: usize) -> JsonGate {
    JsonGate { gate_type: t.to_string(), targets, controls, column, params: vec![] }
}

fn doc(version: &str, qubits: usize, gates: Vec<JsonGate>) -> KetJson {
    KetJson {
        ket_version: version.to_string(),
        name: None,
        description: None,
        qubits,
        gates,
        measurements: vec![],
    }
}

#[test]
fn test_parse_gate_type() {
    assert_eq!(parse_gate_type("H", &[]).unwrap(), GateType::H);
    assert_eq!(parse_gate_type("X", &[]).unwrap(), GateType::X);
    assert_eq!(parse_gate_type("Y", &[]).unwrap(), GateType::Y);
    assert_eq!(parse_gate_type("Z", &[]).unwrap(), GateType::Z);
    assert_eq!(parse_gate_type("S", &[]).unwrap(), GateType::S);
    assert_eq!(parse_gate_type("T", &[]).unwrap(), GateType::T);
    assert_eq!(parse_gate_type("CNOT", &[]).unwrap(), GateType::Cnot);
    assert_eq!(parse_gate_type("CZ", &[]).unwrap(), GateType::Cz);
    assert_eq!(parse_gate_type("SWAP", &[]).unwrap(), GateType::Swap);
    assert_eq!(parse_gate_type("Toffoli", &[]).unwrap(), GateType::Toffoli);
    assert_eq!(parse_gate_type("Barrier", &[]).unwrap(), GateType::Barrier);
    assert_eq!(parse_gate_type("I", &[]).unwrap(), GateType::Identity);
    assert_eq!(parse_gate_type("CustomGate", &[]).unwrap(), GateType::Custom("CustomGate".to_string()));

    assert_eq!(
        parse_gate_type("Rx", &[bits(std::f64::consts::PI)]).unwrap(),
        GateType::Rx(bits(std::f64::consts::PI))
    );
    assert_eq!(
        parse_gate_type("Ry", &[bits(std::f64::consts::FRAC_PI_2)]).unwrap(),
        GateType::Ry(bits(std::f64::consts::FRAC_PI_2))
    );
    assert_eq!(parse_gate_type("Rz", &[bits(1.0)]).unwrap(), GateType::Rz(bits(1.0)));
}

#[test]
fn test_parse_gate_type_missing_params() {
    let result = parse_gate_type("Rx", &[]);
    assert!(result.is_err());
    assert!(matches!(result.unwrap_err(), JsonError::InvalidGate(_)));
}

#[test]
fn parse_gate_type_aliases_and_message() {
    assert_eq!(parse_gate_type("Cnot", &[]).unwrap(), GateType::Cnot);
    assert_eq!(parse_gate_type("Cz", &[]).unwrap(), GateType::Cz);
    assert_eq!(parse_gate_type("Swap", &[]).unwrap(), GateType::Swap);
    assert_eq!(parse_gate_type("CCNOT", &[]).unwrap(), GateType::Toffoli);
    assert_eq!(parse_gate_type("Identity", &[]).unwrap(), GateType::Identity);
    assert_eq!(
        parse_gate_type("Ry", &[]).unwrap_err(),
        JsonError::InvalidGate("Ry gate requires a rotation parameter".to_string())
    );
    assert_eq!(parse_gate_type("h", &[]).unwrap(), GateType::Custom("h".to_string()));
}

#[test]
fn test_gate_type_to_string() {
    assert_eq!(gate_type_to_string(&GateType::H), "H");
    assert_eq!(gate_type_to_string(&GateType::X), "X");
    assert_eq!(gate_type_to_string(&GateType::Cnot), "CNOT");
    assert_eq!(gate_type_to_string(&GateType::Swap), "SWAP");
    assert_eq!(gate_type_to_string(&GateType::Toffoli), "Toffoli");
    assert_eq!(gate_type_to_string(&GateType::Custom("MyGate".to_string())), "MyGate");
    assert_eq!(gate_type_to_string(&GateType::Rx(bits(1.0))), "Rx");
}

#[test]
fn test_gate_params() {
    assert!(gate_params(&GateType::H).is_empty());
    assert_eq!(gate_params(&GateType::Rx(bits(1.5))), vec![bits(1.5)]);
    assert_eq!(gate_params(&GateType::Ry(bits(2.0))), vec![bits(2.0)]);
    assert_eq!(gate_params(&GateType::Rz(bits(3.0))), vec![bits(3.0)]);
}

#[test]
fn test_circuit_to_json() {
    let mut circuit = Circuit::new(2);
    circuit.add_gate(GateType::H, vec![0], vec![], 0).unwrap();
    circuit.add_gate(GateType::Cnot, vec![1], vec![0], 1).unwrap();

    let d = circuit_to_json(&circuit);
    assert_eq!(d.ket_version, "0.1.0");
    assert_eq!(d.ket_version, CURRENT_KET_VERSION);
    assert_eq!(d.gates[0].gate_type, "H");
    assert_eq!(d.gates[1].gate_type, "CNOT");
    assert_eq!(d.qubits, 2);
    assert_eq!(d.name, None);
}

#[test]
fn test_circuit_from_json() {
    let d = doc(
        "0.1.0",
        2,
        vec![jgate("H", vec![0], vec![], 0), jgate("CNOT", vec![1], vec![0], 1)],
    );
    let circuit = circuit_from_json(&d).unwrap();
    assert_eq!(circuit.num_qubits(), 2);
    assert_eq!(circuit.gates.len(), 2);
    assert_eq!(circuit.gates[0].gate, GateType::H);
    assert_eq!(circuit.gates[0].target_qubits, vec![0]);
    assert_eq!(circuit.gates[1].gate, GateType::Cnot);
    assert_eq!(circuit.gates[1].control_qubits, vec![0]);
    assert_eq!(circuit.gates[1].target_qubits, vec![1]);
    assert_eq!(circuit.qubits[1].label, "|q1⟩");
}

#[test]
fn test_circuit_roundtrip() {
    let mut circuit = Circuit::new(3);
    circuit.add_gate(GateType::H, vec![0], vec![], 0).unwrap();
    circuit.add_gate(GateType::Cnot, vec![1], vec![0], 1).unwrap();
    circuit.add_gate(GateType::Rx(bits(1.5)), vec![2], vec![], 2).unwrap();
    circuit.add_measurement(0, 3).unwrap();

    let d = circuit_to_json(&circuit);
    let loaded = circuit_from_json(&d).unwrap();

    assert_eq!(circuit.num_qubits(), loaded.num_qubits());
    assert_eq!(circuit.gates.len(), loaded.gates.len());
    assert_eq!(circuit.measurements.len(), loaded.measurements.len());

    for (orig, loaded) in circuit.gates.iter().zip(&loaded.gates) {
        assert_eq!(orig.gate, loaded.gate);
        assert_eq!(orig.target_qubits, loaded.target_qubits);
        assert_eq!(orig.control_qubits, loaded.control_qubits);
        assert_eq!(orig.column, loaded.column);
    }
}

#[test]
fn test_invalid_version() {
    let d = doc("0.2.0", 2, vec![]);
    let result = circuit_from_json(&d);
    assert!(result.is_err());
    assert!(matches!(
        result.unwrap_err(),
        JsonError::InvalidVersion { expected, found } if expected == "0.1.0" && found == "0.2.0"
    ));
}

#[test]
fn test_parameterized_gate_roundtrip() {
    let mut circuit = Circuit::new(2);
    circuit.add_gate(GateType::Rx(bits(std::f64::consts::PI)), vec![0], vec![], 0).unwrap();
    circuit.add_gate(GateType::Ry(bits(std::f64::consts::FRAC_PI_2)), vec![1], vec![], 1).unwrap();
    circuit.add_gate(GateType::Rz(bits(0.5)), vec![0], vec![], 2).unwrap();

    let d = circuit_to_json(&circuit);
    let loaded = circuit_from_json(&d).unwrap();

    assert_eq!(loaded.gates[0].gate, GateType::Rx(bits(std::f64::consts::PI)));
    assert_eq!(loaded.gates[1].gate, GateType::Ry(bits(std::f64::consts::FRAC_PI_2)));
    assert_eq!(loaded.gates[2].gate, GateType::Rz(bits(0.5)));
}

#[test]
fn json_test_toffoli_gate() {
    let d = doc("0.1.0", 3, vec![jgate("Toffoli", vec![2], vec![0, 1], 0)]);
    let circuit = circuit_from_json(&d).unwrap();
    assert_eq!(circuit.gates[0].gate, GateType::Toffoli);
    assert_eq!(circuit.gates[0].control_qubits, vec![0, 1]);
    assert_eq!(circuit.gates[0].target_qubits, vec![2]);
}

#[test]
fn json_test_swap_gate() {
    let d = doc("0.1.0", 2, vec![jgate("SWAP", vec![0, 1], vec![], 0)]);
    let circuit = circuit_from_json(&d).unwrap();
    assert_eq!(circuit.gates[0].gate, GateType::Swap);
    assert_eq!(circuit.gates[0].target_qubits, vec![0, 1]);
}

#[test]
fn json_test_cz_gate() {
    let d = doc("0.1.0", 2, vec![jgate("CZ", vec![1], vec![0], 0)]);
    let circuit = circuit_from_json(&d).unwrap();
    assert_eq!(circuit.gates[0].gate, GateType::Cz);
}

#[test]
fn test_with_metadata() {
    let circuit = Circuit::new(2);
    let d = circuit_to_json_with_metadata(
        &circuit,
        Some("Bell State".to_string()),
        Some("Creates an entangled Bell state".to_string()),
    );
    assert_eq!(d.name, Some("Bell State".to_string()));
    assert_eq!(d.description, Some("Creates an entangled Bell state".to_string()));
}

#[test]
fn test_parse_with_metadata() {
    let mut d = doc("0.1.0", 1, vec![jgate("H", vec![0], vec![], 0)]);
    d.name = Some("Test Circuit".to_string());
    d.description = Some("A test circuit".to_string());
    let circuit = circuit_from_json(&d).unwrap();
    assert_eq!(circuit.num_qubits(), 1);
    assert_eq!(circuit.gates[0].gate, GateType::H);
}

#[test]
fn first_unreadable_gate_is_reported() {
    let d = doc(
        "0.1.0",
        2,
        vec![jgate("H", vec![0], vec![], 0), jgate("Ry", vec![1], vec![], 1), jgate("Rx", vec![0], vec![], 2)],
    );
    assert_eq!(
        circuit_from_json(&d).unwrap_err(),
        JsonError::InvalidGate("Ry gate requires a rotation parameter".to_string())
    );
}

#[test]
fn measurements_are_stored_and_read() {
    let mut circuit = Circuit::new(2);
    circuit.add_measurement(1, 4).unwrap();
    let d = circuit_to_json(&circuit);
    assert_eq!(d.measurements, vec![JsonMeasurement { qubit: 1, column: 4 }]);
    let loaded = circuit_from_json(&d).unwrap();
    assert_eq!(loaded.measurements[0].qubit_id, 1);
    assert_eq!(loaded.measurements[0].column, 4);
}

#[test]
fn rotation_without_stored_parameters_takes_its_angle() {
    let circuit = {
        let mut c = Circuit::new(1);
        c.add_gate(GateType::Rz(bits(0.25)), vec![0], vec![], 0).unwrap();
        c
    };
    let d = circuit_to_json(&circuit);
    assert_eq!(d.gates[0].params, vec![bits(0.25)]);
}

#[test]
fn json_error_messages() {
    assert_eq!(JsonError::Io("gone".to_string()).message(), "IO error: gone");
    assert_eq!(JsonError::Parse("eof".to_string()).message(), "JSON parse error: eof");
    assert_eq!(
        JsonError::InvalidVersion { expected: "0.1.0".to_string(), found: "9".to_string() }.message(),
        "Invalid version: expected 0.1.0, found 9"
    );
    assert_eq!(JsonError::MissingField("ket_version".to_string()).message(), "Missing required field: ket_version");
    assert_eq!(
        JsonError::InvalidQubitCount { expected: 3, found: 12 }.message(),
        "Qubit count mismatch: expected 3, found 12"
    );
    assert_eq!(JsonError::InvalidGateType("Q".to_string()).message(), "Invalid gate type: Q");
    assert_eq!(JsonError::InvalidGate("bad".to_string()).message(), "Invalid gate: bad");
    assert_eq!(JsonError::Serialization("x".to_string()).message(), "Serialization error: x");
}

#[test]
fn json_qubit_count_is_checked() {
    let mut d = doc(CURRENT_KET_VERSION, 1, vec![]);
    d.measurements = vec![JsonMeasurement { qubit: 5, column: 0 }];
    assert_eq!(circuit_from_json(&d), Err(JsonError::InvalidQubitCount { expected: 1, found: 6 }));
    let d = doc(CURRENT_KET_VERSION, 2, vec![jgate("CNOT", vec![1], vec![3], 0)]);
    assert_eq!(circuit_from_json(&d), Err(JsonError::InvalidQubitCount { expected: 2, found: 4 }));
    let d = doc(CURRENT_KET_VERSION, 2, vec![jgate("CNOT", vec![1], vec![0], 0)]);
    assert!(circuit_from_json(&d).is_ok());
}
