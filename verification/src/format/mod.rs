//! File formats: the native `.ket.json` document and OpenQASM 2.0.
pub mod json;
pub mod json_roundtrip;
pub mod qasm;
pub mod qasm_parse;
pub mod qasm_roundtrip;
pub mod qasm_law;
