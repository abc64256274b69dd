use ketgrid::circuit::Circuit;
use ketgrid::format::qasm::{circuit_from_qasm, circuit_to_qasm, import_fits, map_gate_to_circuit, QasmError, QasmImportResult};
use ketgrid::format::qasm_parse::{parse_program, strip_comments, ParamExpr, QasmStmt};
use ketgrid::gate::GateType;

/// Six-decimal angle texts, one per gate.
fn angle_texts(circuit: &Circuit) -> Vec<String> {
    circuit
        .gates
        .iter()
        .map(|g| match g.gate {
            GateType::Rx(b) | GateType::Ry(b) | GateType::Rz(b) => format!("{:.6}", f64::from_bits(b)),
            _ => String::new(),
        })
        .collect()
}

fn export(circuit: &Circuit) -> Result<String, QasmError> {
    circuit_to_qasm(circuit, &angle_texts(circuit))
}

fn eval(e: &ParamExpr) -> f64 {
    match e {
        ParamExpr::Pi => std::f64::consts::PI,
        ParamExpr::Number(s) => s.parse::<f64>().unwrap(),
        ParamExpr::Neg(a) => -eval(a),
        ParamExpr::Add(a, b) => eval(a) + eval(b),
        ParamExpr::Sub(a, b) => eval(a) - eval(b),
        ParamExpr::Mul(a, b) => eval(a) * eval(b),
        ParamExpr::Div(a, b) => eval(a) / eval(b),
    }
}

fn import(text: &str) -> Result<QasmImportResult, QasmError> {
    let program = parse_program(text).expect("warnings can be cut");
    let angles: Vec<Vec<u64>> = program
        .statements
        .iter()
        .map(|s| match s {
            QasmStmt::Gate { params, .. } => params.iter().map(|p| eval(p).to_bits()).collect(),
            _ => Vec::new(),
        })
        .collect();
    assert!(import_fits(&program, &angles));
    circuit_from_qasm(&program, &angles)
}

fn angle_of(g: &GateType) -> f64 {
    match g {
        GateType::Rx(b) | GateType::Ry(b) | GateType::Rz(b) => f64::from_bits(*b),
        _ => panic!("not a rotation"),
    }
}

#[test]
fn test_empty_circuit_error() {
    let circuit = Circuit::new(0);
    let result = export(&circuit);
    assert!(result.is_err());
    assert_eq!(result.unwrap_err(), QasmError::EmptyCircuit);
}

#[test]
fn test_header() {
    let circuit = Circuit::new(1);
    let code = export(&circuit).unwrap();
    assert!(code.contains("OPENQASM 2.0;"));
    assert!(code.contains("include \"qelib1.inc\";"));
}

#[test]
fn test_qreg_declaration() {
    let circuit = Circuit::new(3);
    let code = export(&circuit).unwrap();
    assert!(code.contains("qreg q[3];"));
}

#[test]
fn test_creg_declaration() {
    let mut circuit = Circuit::new(2);
    circuit.add_measurement(0, 0).unwrap();
    circuit.add_measurement(1, 1).unwrap();

    let code = export(&circuit).unwrap();
    assert!(code.contains("creg c[2];"));
}

#[test]
fn qasm_test_single_qubit_gates() {
    let mut circuit = Circuit::new(1);
    circuit.add_gate(GateType::H, vec![0], vec![], 0).unwrap();
    circuit.add_gate(GateType::X, vec![0], vec![], 1).unwrap();
    circuit.add_gate(GateType::Y, vec![0], vec![], 2).unwrap();
    circuit.add_gate(GateType::Z, vec![0], vec![], 3).unwrap();
    circuit.add_gate(GateType::S, vec![0], vec![], 4).unwrap();
    circuit.add_gate(GateType::T, vec![0], vec![], 5).unwrap();

    let code = export(&circuit).unwrap();
    assert!(code.contains("h q[0];"));
    assert!(code.contains("x q[0];"));
    assert!(code.contains("y q[0];"));
    assert!(code.contains("z q[0];"));
    assert!(code.contains("s q[0];"));
    assert!(code.contains("t q[0];"));
}

#[test]
fn qasm_test_parameterized_gates() {
    let mut circuit = Circuit::new(2);
    circuit.add_gate(GateType::Rx(std::f64::consts::PI.to_bits()), vec![0], vec![], 0).unwrap();
    circuit.add_gate(GateType::Ry(std::f64::consts::FRAC_PI_2.to_bits()), vec![1], vec![], 1).unwrap();
    circuit.add_gate(GateType::Rz(1.0f64.to_bits()), vec![0], vec![], 2).unwrap();

    let code = export(&circuit).unwrap();
    assert!(code.contains("rx(3.141593) q[0];"));
    assert!(code.contains("ry(1.570796) q[1];"));
    assert!(code.contains("rz(1.000000) q[0];"));
}

#[test]
fn qasm_test_controlled_gates() {
    let mut circuit = Circuit::new(2);
    circuit.add_gate(GateType::Cnot, vec![1], vec![0], 0).unwrap();

    let code = export(&circuit).unwrap();
    assert!(code.contains("cx q[0],q[1];"));
}

#[test]
fn qasm_test_cz_gate() {
    let mut circuit = Circuit::new(2);
    circuit.add_gate(GateType::Cz, vec![1], vec![0], 0).unwrap();

    let code = export(&circuit).unwrap();
    assert!(code.contains("cz q[0],q[1];"));
}

#[test]
fn qasm_test_swap_gate() {
    let mut circuit = Circuit::new(2);
    circuit.add_gate(GateType::Swap, vec![0, 1], vec![], 0).unwrap();

    let code = export(&circuit).unwrap();
    assert!(code.contains("swap q[0],q[1];"));
}

#[test]
fn qasm_test_toffoli_gate() {
    let mut circuit = Circuit::new(3);
    circuit.add_gate(GateType::Toffoli, vec![2], vec![0, 1], 0).unwrap();

    let code = export(&circuit).unwrap();
    assert!(code.contains("ccx q[0],q[1],q[2];"));
}

#[test]
fn test_barrier_gate() {
    let mut circuit = Circuit::new(2);
    circuit.add_gate(GateType::Barrier, vec![0], vec![], 0).unwrap();
    circuit.add_gate(GateType::Barrier, vec![1], vec![], 0).unwrap();

    let code = export(&circuit).unwrap();
    assert!(code.contains("barrier q[0];"));
    assert!(code.contains("barrier q[1];"));
}

#[test]
fn test_barrier_gate_multi_qubit() {
    let mut circuit = Circuit::new(2);
    circuit.add_gate(GateType::Barrier, vec![0], vec![], 0).unwrap();
    circuit.add_gate(GateType::Barrier, vec![1], vec![], 0).unwrap();

    let code = export(&circuit).unwrap();
    assert!(code.contains("barrier q[0];"));
    assert!(code.contains("barrier q[1];"));
}

#[test]
fn test_barrier_gate_single_qubit() {
    let mut circuit = Circuit::new(1);
    circuit.add_gate(GateType::H, vec![0], vec![], 0).unwrap();
    circuit.add_gate(GateType::Barrier, vec![0], vec![], 1).unwrap();
    circuit.add_gate(GateType::X, vec![0], vec![], 2).unwrap();

    let code = export(&circuit).unwrap();
    let h_pos = code.find("h q[0];").unwrap();
    let barrier_pos = code.find("barrier q[0];").unwrap();
    let x_pos = code.find("x q[0];").unwrap();
    assert!(h_pos < barrier_pos, "H should come before barrier");
    assert!(barrier_pos < x_pos, "barrier should come before X");
}

#[test]
fn test_identity_gate_skipped() {
    let mut circuit = Circuit::new(1);
    circuit.add_gate(GateType::H, vec![0], vec![], 0).unwrap();
    circuit.add_gate(GateType::Identity, vec![0], vec![], 1).unwrap();
    circuit.add_gate(GateType::X, vec![0], vec![], 2).unwrap();

    let code = export(&circuit).unwrap();
    assert!(code.contains("h q[0];"));
    assert!(code.contains("x q[0];"));
    assert!(!code.contains("Identity"));
}

#[test]
fn test_custom_gate_comment() {
    let mut circuit = Circuit::new(1);
    circuit.add_gate(GateType::Custom("U3Gate".to_string()), vec![0], vec![], 0).unwrap();

    let code = export(&circuit).unwrap();
    assert!(code.contains("// Custom gate: U3Gate"));
}

#[test]
fn test_measurements() {
    let mut circuit = Circuit::new(2);
    circuit.add_gate(GateType::H, vec![0], vec![], 0).unwrap();
    circuit.add_measurement(0, 1).unwrap();
    circuit.add_measurement(1, 1).unwrap();

    let code = export(&circuit).unwrap();
    assert!(code.contains("creg c[2];"));
    assert!(code.contains("measure q[0] -> c[0];"));
    assert!(code.contains("measure q[1] -> c[1];"));
}

#[test]
fn test_bell_state_circuit() {
    let mut circuit = Circuit::new(2);
    circuit.add_gate(GateType::H, vec![0], vec![], 0).unwrap();
    circuit.add_gate(GateType::Cnot, vec![1], vec![0], 1).unwrap();
    circuit.add_measurement(0, 2).unwrap();
    circuit.add_measurement(1, 2).unwrap();

    let code = export(&circuit).unwrap();

    assert!(code.contains("OPENQASM 2.0;"));
    assert!(code.contains("include \"qelib1.inc\";"));
    assert!(code.contains("qreg q[2];"));
    assert!(code.contains("creg c[2];"));

    let h_pos = code.find("h q[0];").unwrap();
    let cx_pos = code.find("cx q[0],q[1];").unwrap();
    assert!(h_pos < cx_pos, "H gate should come before CNOT");

    assert!(code.contains("measure q[0] -> c[0];"));
    assert!(code.contains("measure q[1] -> c[1];"));
}

#[test]
fn test_circuit_to_qasm_method() {
    let mut circuit = Circuit::new(1);
    circuit.add_gate(GateType::H, vec![0], vec![], 0).unwrap();

    let code = export(&circuit).unwrap();
    assert!(code.contains("h q[0];"));
}

#[test]
fn test_execution_order_by_column() {
    let mut circuit = Circuit::new(2);
    circuit.add_gate(GateType::X, vec![1], vec![], 2).unwrap();
    circuit.add_gate(GateType::H, vec![0], vec![], 0).unwrap();
    circuit.add_gate(GateType::Z, vec![0], vec![], 1).unwrap();

    let code = export(&circuit).unwrap();

    let h_pos = code.find("h q[0];").unwrap();
    let z_pos = code.find("z q[0];").unwrap();
    let x_pos = code.find("x q[1];").unwrap();

    assert!(h_pos < z_pos, "H should come before Z");
    assert!(z_pos < x_pos, "Z should come before X");
}

#[test]
fn test_no_trailing_newline() {
    let circuit = Circuit::new(1);
    let code = export(&circuit).unwrap();
    assert!(!code.ends_with('\n'));
}

#[test]
fn qasm_export_exact_text() {
    let mut circuit = Circuit::new(2);
    circuit.add_gate(GateType::H, vec![0], vec![], 0).unwrap();
    circuit.add_gate(GateType::Cnot, vec![1], vec![0], 1).unwrap();
    circuit.add_measurement(1, 2).unwrap();
    let code = export(&circuit).unwrap();
    assert_eq!(
        code,
        "OPENQASM 2.0;\ninclude \"qelib1.inc\";\n\nqreg q[2];\ncreg c[1];\n\nh q[0];\ncx q[0],q[1];\n\nmeasure q[1] -> c[0];"
    );
    let empty = export(&Circuit::new(1)).unwrap();
    assert_eq!(empty, "OPENQASM 2.0;\ninclude \"qelib1.inc\";\n\nqreg q[1];");
}

#[test]
fn test_import_bell_state() {
    let qasm = "\
OPENQASM 2.0;
include \"qelib1.inc\";
qreg q[2];
creg c[2];
h q[0];
cx q[0],q[1];
measure q[0] -> c[0];
measure q[1] -> c[1];";

    let result = import(qasm).unwrap();
    assert_eq!(result.circuit.num_qubits(), 2);
    assert_eq!(result.circuit.gates.len(), 2);
    assert_eq!(result.circuit.measurements.len(), 2);
    assert!(result.warnings.is_empty());

    assert_eq!(result.circuit.gates[0].gate, GateType::H);
    assert_eq!(result.circuit.gates[0].target_qubits, vec![0]);
    assert_eq!(result.circuit.gates[0].column, 0);

    assert_eq!(result.circuit.gates[1].gate, GateType::Cnot);
    assert_eq!(result.circuit.gates[1].control_qubits, vec![0]);
    assert_eq!(result.circuit.gates[1].target_qubits, vec![1]);
    assert_eq!(result.circuit.gates[1].column, 1);

    assert_eq!(result.circuit.measurements[0].qubit_id, 0);
    assert_eq!(result.circuit.measurements[0].column, 2);
    assert_eq!(result.circuit.measurements[1].qubit_id, 1);
    assert_eq!(result.circuit.measurements[1].column, 2);
}

#[test]
fn test_import_single_qubit_gates() {
    let qasm = "\
OPENQASM 2.0;
qreg q[1];
h q[0];
x q[0];
y q[0];
z q[0];
s q[0];
t q[0];";

    let result = import(qasm).unwrap();
    assert_eq!(result.circuit.gates.len(), 6);
    assert_eq!(result.circuit.gates[0].gate, GateType::H);
    assert_eq!(result.circuit.gates[1].gate, GateType::X);
    assert_eq!(result.circuit.gates[2].gate, GateType::Y);
    assert_eq!(result.circuit.gates[3].gate, GateType::Z);
    assert_eq!(result.circuit.gates[4].gate, GateType::S);
    assert_eq!(result.circuit.gates[5].gate, GateType::T);

    for (i, gate) in result.circuit.gates.iter().enumerate() {
        assert_eq!(gate.column, i);
    }
}

#[test]
fn test_import_parameterized_gates() {
    let qasm = "\
OPENQASM 2.0;
qreg q[1];
rx(pi) q[0];
ry(pi/2) q[0];
rz(2*pi/3) q[0];";

    let result = import(qasm).unwrap();
    assert_eq!(result.circuit.gates.len(), 3);

    let eps = 1e-10;
    match result.circuit.gates[0].gate {
        GateType::Rx(_) => assert!((angle_of(&result.circuit.gates[0].gate) - std::f64::consts::PI).abs() < eps),
        _ => panic!("Expected Rx"),
    }
    match result.circuit.gates[1].gate {
        GateType::Ry(_) => {
            assert!((angle_of(&result.circuit.gates[1].gate) - std::f64::consts::FRAC_PI_2).abs() < eps)
        }
        _ => panic!("Expected Ry"),
    }
    match result.circuit.gates[2].gate {
        GateType::Rz(_) => {
            assert!((angle_of(&result.circuit.gates[2].gate) - 2.0 * std::f64::consts::PI / 3.0).abs() < eps);
        }
        _ => panic!("Expected Rz"),
    }
}

#[test]
fn test_import_negative_pi_expression() {
    let qasm = "\
OPENQASM 2.0;
qreg q[1];
rx(-pi/4) q[0];";

    let result = import(qasm).unwrap();
    let eps = 1e-10;
    match result.circuit.gates[0].gate {
        GateType::Rx(_) => {
            assert!((angle_of(&result.circuit.gates[0].gate) - (-std::f64::consts::FRAC_PI_4)).abs() < eps);
        }
        _ => panic!("Expected Rx"),
    }
}

#[test]
fn test_import_multi_qubit_gates() {
    let qasm = "\
OPENQASM 2.0;
qreg q[3];
cx q[0],q[1];
cz q[0],q[2];
swap q[1],q[2];
ccx q[0],q[1],q[2];";

    let result = import(qasm).unwrap();
    assert_eq!(result.circuit.gates.len(), 4);

    assert_eq!(result.circuit.gates[0].gate, GateType::Cnot);
    assert_eq!(result.circuit.gates[0].control_qubits, vec![0]);
    assert_eq!(result.circuit.gates[0].target_qubits, vec![1]);

    assert_eq!(result.circuit.gates[1].gate, GateType::Cz);
    assert_eq!(result.circuit.gates[2].gate, GateType::Swap);
    assert_eq!(result.circuit.gates[3].gate, GateType::Toffoli);
    assert_eq!(result.circuit.gates[3].control_qubits, vec![0, 1]);
    assert_eq!(result.circuit.gates[3].target_qubits, vec![2]);
}

#[test]
fn test_import_barriers() {
    let qasm = "\
OPENQASM 2.0;
qreg q[2];
h q[0];
barrier q[0],q[1];
x q[0];";

    let result = import(qasm).unwrap();
    assert_eq!(result.circuit.gates.len(), 4);
    assert_eq!(result.circuit.gates[0].gate, GateType::H);
    assert_eq!(result.circuit.gates[1].gate, GateType::Barrier);
    assert_eq!(result.circuit.gates[2].gate, GateType::Barrier);
    assert_eq!(result.circuit.gates[3].gate, GateType::X);
}

#[test]
fn test_import_unsupported_gate_warning() {
    let qasm = "\
OPENQASM 2.0;
qreg q[2];
h q[0];
sdg q[0];
x q[1];";

    let result = import(qasm).unwrap();
    assert_eq!(result.circuit.gates.len(), 2);
    assert_eq!(result.warnings.len(), 1);
    assert!(result.warnings[0].contains("sdg"));
}

#[test]
fn test_import_empty_circuit_error() {
    let qasm = "OPENQASM 2.0;\ninclude \"qelib1.inc\";";
    let result = import(qasm);
    assert!(result.is_err());
    assert_eq!(result.unwrap_err(), QasmError::EmptyCircuit);
}

#[test]
fn test_import_undefined_register_error() {
    let qasm = "\
OPENQASM 2.0;
qreg q[2];
h r[0];";

    let result = import(qasm);
    assert!(result.is_err());
    match result.unwrap_err() {
        QasmError::ParseError(msg) => {
            assert!(msg.contains("Undefined"));
            assert_eq!(msg, "Undefined quantum register 'r'");
        }
        other => panic!("Expected ParseError, got {:?}", other),
    }
}

#[test]
fn test_import_qubit_index_out_of_bounds() {
    let qasm = "\
OPENQASM 2.0;
qreg q[2];
h q[5];";

    let result = import(qasm);
    assert!(result.is_err());
    match result.unwrap_err() {
        QasmError::ParseError(msg) => {
            assert!(msg.contains("out of bounds"));
            assert_eq!(msg, "Index 5 out of bounds for register 'q' (size 2)");
        }
        other => panic!("Expected ParseError, got {:?}", other),
    }
}

#[test]
fn test_import_comments_stripped() {
    let qasm = "\
OPENQASM 2.0;
// This is a comment
qreg q[2];
h q[0]; // Apply Hadamard
cx q[0],q[1];";

    let result = import(qasm).unwrap();
    assert_eq!(result.circuit.num_qubits(), 2);
    assert_eq!(result.circuit.gates.len(), 2);
}

#[test]
fn test_import_parallel_column_scheduling() {
    let qasm = "\
OPENQASM 2.0;
qreg q[3];
h q[0];
x q[1];
y q[2];
cx q[0],q[1];";

    let result = import(qasm).unwrap();
    assert_eq!(result.circuit.gates[0].column, 0);
    assert_eq!(result.circuit.gates[1].column, 0);
    assert_eq!(result.circuit.gates[2].column, 0);
    assert_eq!(result.circuit.gates[3].column, 1);
}

#[test]
fn test_import_multiple_registers() {
    let qasm = "\
OPENQASM 2.0;
qreg a[2];
qreg b[1];
h a[0];
x b[0];
cx a[1],b[0];";

    let result = import(qasm).unwrap();
    assert_eq!(result.circuit.num_qubits(), 3);
    assert_eq!(result.circuit.gates[0].target_qubits, vec![0]);
    assert_eq!(result.circuit.gates[1].target_qubits, vec![2]);
    assert_eq!(result.circuit.gates[2].control_qubits, vec![1]);
    assert_eq!(result.circuit.gates[2].target_qubits, vec![2]);
}

#[test]
fn test_import_roundtrip_bell_state() {
    let mut original = Circuit::new(2);
    original.add_gate(GateType::H, vec![0], vec![], 0).unwrap();
    original.add_gate(GateType::Cnot, vec![1], vec![0], 1).unwrap();
    original.add_measurement(0, 2).unwrap();
    original.add_measurement(1, 2).unwrap();

    let qasm_code = export(&original).unwrap();
    let imported = import(&qasm_code).unwrap();

    assert_eq!(imported.circuit.num_qubits(), original.num_qubits());
    assert_eq!(imported.circuit.gates.len(), original.gates.len());
    assert_eq!(imported.circuit.measurements.len(), original.measurements.len());

    for (orig, imp) in original.gates.iter().zip(imported.circuit.gates.iter()) {
        assert_eq!(orig.gate, imp.gate);
        assert_eq!(orig.target_qubits, imp.target_qubits);
        assert_eq!(orig.control_qubits, imp.control_qubits);
        assert_eq!(orig.column, imp.column);
    }
}

#[test]
fn test_import_from_qasm_method() {
    let qasm = "OPENQASM 2.0;\nqreg q[1];\nh q[0];";
    let result = import(qasm).unwrap();
    assert_eq!(result.circuit.gates.len(), 1);
    assert_eq!(result.circuit.gates[0].gate, GateType::H);
}

#[test]
fn qasm_import_measure_and_barrier_columns() {
    let qasm = "qreg q[2];\nh q[0];\nh q[0];\nmeasure q[1] -> c[1];\nbarrier q[0];\nx q[1];";
    let result = import(qasm).unwrap();
    assert_eq!(result.circuit.measurements.len(), 1);
    assert_eq!(result.circuit.measurements[0].qubit_id, 1);
    assert_eq!(result.circuit.measurements[0].column, 0);
    // barrier on q0 goes after the two H gates
    assert_eq!(result.circuit.gates[2].gate, GateType::Barrier);
    assert_eq!(result.circuit.gates[2].column, 2);
    // x on q1 follows the measurement
    assert_eq!(result.circuit.gates[3].column, 1);
}

#[test]
fn qasm_import_unrecognized_statement_warning() {
    let qasm = "qreg q[1];\nthis is not qasm;\nh q[0];";
    let result = import(qasm).unwrap();
    assert_eq!(result.circuit.gates.len(), 1);
    assert_eq!(result.warnings.len(), 1);
    assert_eq!(result.warnings[0], "Unrecognized: 'this is not qasm'");
}

#[test]
fn qasm_import_unsupported_gate_warning_text() {
    let result = import("qreg q[1];\nu3(1,2,3) q[0];").unwrap();
    assert_eq!(result.warnings, vec!["Skipping unsupported gate 'u3'".to_string()]);
}

#[test]
fn qasm_map_gate_names() {
    assert_eq!(map_gate_to_circuit("h", &[], &[3]), Ok((GateType::H, vec![3], vec![])));
    assert_eq!(map_gate_to_circuit("cx", &[], &[0, 2]), Ok((GateType::Cnot, vec![2], vec![0])));
    assert_eq!(map_gate_to_circuit("ccx", &[], &[4, 1, 0]), Ok((GateType::Toffoli, vec![0], vec![4, 1])));
    assert_eq!(map_gate_to_circuit("swap", &[], &[1, 0]), Ok((GateType::Swap, vec![1, 0], vec![])));
    let half = 0.5f64.to_bits();
    assert_eq!(map_gate_to_circuit("rz", &[half], &[1]), Ok((GateType::Rz(half), vec![1], vec![])));
    assert_eq!(map_gate_to_circuit("rz", &[], &[1]), Err("rz expects 1 qubit and 1 parameter".to_string()));
    assert_eq!(map_gate_to_circuit("u1", &[], &[1]), Err("u1 expects 1 qubit and 1 parameter".to_string()));
    assert_eq!(map_gate_to_circuit("cx", &[], &[1]), Err("cx expects 2 qubits, got 1".to_string()));
    assert_eq!(map_gate_to_circuit("h", &[], &[1, 2]), Err("h expects 1 qubit, got 2".to_string()));
    assert_eq!(map_gate_to_circuit("sdg", &[], &[1]), Err("Skipping unsupported gate 'sdg'".to_string()));
}

#[test]
fn qasm_strip_comments_keeps_code() {
    assert_eq!(strip_comments("h q[0]; // note\nx q[1];"), "h q[0]; \nx q[1];");
    assert_eq!(strip_comments("// only\n"), "");
}

#[test]
fn qasm_error_messages() {
    assert_eq!(QasmError::EmptyCircuit.message(), "Cannot export empty circuit (no qubits)");
    assert_eq!(QasmError::InvalidGate("x".to_string()).message(), "Invalid gate configuration: x");
    assert_eq!(QasmError::ParseError("bad".to_string()).message(), "OpenQASM parse error: bad");
}

#[test]
fn qasm_circuit_methods() {
    let mut circuit = Circuit::new(1);
    circuit.add_gate(GateType::H, vec![0], vec![], 0).unwrap();
    let code = circuit.to_qasm(&angle_texts(&circuit)).unwrap();
    assert!(code.contains("h q[0];"));
    let program = parse_program(&code).unwrap();
    let angles: Vec<Vec<u64>> = program.statements.iter().map(|_| Vec::new()).collect();
    let back = Circuit::from_qasm(&program, &angles).unwrap();
    assert_eq!(back.circuit.gates.len(), 1);
    assert_eq!(back.circuit.gates[0].gate, GateType::H);
}

#[test]
fn qasm_export_import_gives_gates_in_column_order() {
    let mut original = Circuit::new(3);
    original.add_gate(GateType::X, vec![2], vec![], 3).unwrap();
    original.add_gate(GateType::H, vec![0], vec![], 0).unwrap();
    original.add_gate(GateType::Toffoli, vec![2], vec![0, 1], 1).unwrap();
    original.add_gate(GateType::Swap, vec![0, 1], vec![], 2).unwrap();
    original.add_gate(GateType::Barrier, vec![1], vec![], 4).unwrap();
    original.add_gate(GateType::Cz, vec![2], vec![0], 5).unwrap();
    original.add_measurement(1, 7).unwrap();
    original.add_measurement(0, 6).unwrap();

    let text = export(&original).unwrap();
    let program = parse_program(&text).unwrap();
    assert!(program.warnings.is_empty());
    let imported = import(&text).unwrap();
    assert!(imported.warnings.is_empty());
    assert_eq!(imported.circuit.num_qubits(), 3);

    let expected = original.gates_by_column();
    assert_eq!(imported.circuit.gates.len(), expected.len());
    for (orig, imp) in expected.iter().zip(imported.circuit.gates.iter()) {
        assert_eq!(orig.gate, imp.gate);
        assert_eq!(orig.target_qubits, imp.target_qubits);
        assert_eq!(orig.control_qubits, imp.control_qubits);
    }
    let columns: Vec<usize> = imported.circuit.gates.iter().map(|g| g.column).collect();
    assert_eq!(columns, vec![0, 1, 2, 2, 3, 3]);
    let measured: Vec<usize> = imported.circuit.measurements.iter().map(|m| m.qubit_id).collect();
    assert_eq!(measured, vec![0, 1]);
}
