//! KetGrid: the verified core of a quantum circuit editor.
//!
//! The circuit data model, gate metadata, the `.ket.json` document mapping,
//! OpenQASM 2.0 export and import, the undo/redo history, gate placement
//! editor, the example catalogue and the resource statistics, the simulation
//! schedule and the keyboard shortcuts.
pub mod order;
mod seqs;
mod text;

pub mod circuit;
pub mod commands;
pub mod editor;
pub mod entanglement;
pub mod examples;
pub mod format;

pub mod gate;
pub mod history;
pub mod schedule;
pub mod shortcuts;
pub mod stats;
pub mod view;
pub mod wire;

pub use text::{decimal, push_decimal};
pub use wire::QubitWire;
