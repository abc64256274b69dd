//! Qubit wires.
use vstd::prelude::*;
use vstd::string::*;
use crate::text::{decimal, push_decimal};

verus! {

/// A qubit wire in the circuit.
#[derive(Debug, Clone, PartialEq)]
pub struct QubitWire {
    /// Wire index (0-based).
    pub id: usize,
    /// Display label (e.g. "|q0⟩").
    pub label: String,
}

/// Mathematical model of a wire: its id and the text of its label.
pub struct WireView {
    pub id: usize,
    pub label: Seq<char>,
}

impl View for QubitWire {
    type V = WireView;

    open spec fn view(&self) -> WireView {
        WireView { id: self.id, label: self.label@ }
    }
}

/// The label a wire gets when none is given: `|q<id>⟩`.
pub open spec fn default_label(id: nat) -> Seq<char> {
    seq!['|', 'q'] + decimal(id) + seq!['⟩']
}

impl QubitWire {
    /// Creates a new qubit wire with the given id and label.
    pub fn new(id: usize, label: &str) -> (w: QubitWire)
        ensures
            w.id == id,
            w.label@ == label@,
    {
        QubitWire { id, label: String::from_str(label) }
    }

    /// Creates a new qubit wire with a default label based on its id.
    pub fn with_default_label(id: usize) -> (w: QubitWire)
        ensures
            w.id == id,
            w.label@ == default_label(id as nat),
    {
        let mut label = String::from_str("|q");
        push_decimal(&mut label, id);
        label.append("⟩");
        proof {
            reveal_strlit("|q");
            reveal_strlit("⟩");
        }
        QubitWire { id, label }
    }

    /// A copy of this wire.
    pub fn duplicate(&self) -> (w: QubitWire)
        ensures
            w == *self,
    {
        QubitWire { id: self.id, label: self.label.clone() }
    }
}

} // verus!
