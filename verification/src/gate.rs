//! Gate types and their metadata.
use vstd::prelude::*;
use vstd::string::*;

verus! {

/// Supported quantum gate types.
///
/// Rotation angles are radians, held as the bit pattern of an IEEE-754
/// double (`f64::to_bits`); the library carries them without arithmetic.
#[derive(Debug, Clone, PartialEq)]
pub enum GateType {
    /// Hadamard gate.
    H,
    /// Pauli-X gate.
    X,
    /// Pauli-Y gate.
    Y,
    /// Pauli-Z gate.
    Z,
    /// S gate (π/2 phase).
    S,
    /// T gate (π/4 phase).
    T,
    /// Rotation around the X axis.
    Rx(u64),
    /// Rotation around the Y axis.
    Ry(u64),
    /// Rotation around the Z axis.
    Rz(u64),
    /// Controlled-NOT.
    Cnot,
    /// Controlled-Z.
    Cz,
    /// Swap.
    Swap,
    /// Toffoli (CC-NOT).
    Toffoli,
    /// Visual separator.
    Barrier,
    /// Identity / no-op.
    Identity,
    /// User-defined custom gate.
    Custom(String),
}

/// Number of qubits a gate of this type acts on.
pub open spec fn spec_num_qubits(g: GateType) -> nat {
    match g {
        GateType::Cnot | GateType::Cz | GateType::Swap => 2,
        GateType::Toffoli => 3,
        _ => 1,
    }
}

/// Number of control qubits a gate of this type needs.
pub open spec fn spec_num_controls(g: GateType) -> nat {
    match g {
        GateType::Cnot | GateType::Cz => 1,
        GateType::Toffoli => 2,
        _ => 0,
    }
}

/// Whether a gate of this type carries a rotation angle.
pub open spec fn spec_is_parameterized(g: GateType) -> bool {
    g is Rx || g is Ry || g is Rz
}

/// The rotation angle bits of a parameterized gate, as a sequence.
pub open spec fn spec_parameters(g: GateType) -> Seq<u64> {
    match g {
        GateType::Rx(t) | GateType::Ry(t) | GateType::Rz(t) => seq![t],
        _ => Seq::empty(),
    }
}

/// Two gate types are the same gate: same variant, same angle bits, same
/// custom name.
pub open spec fn same_gate(a: GateType, b: GateType) -> bool {
    match (a, b) {
        (GateType::Custom(x), GateType::Custom(y)) => x@ == y@,
        _ => a == b,
    }
}

/// Display name of a gate; `angle` is the rendered rotation angle.
pub open spec fn spec_display_name(g: GateType, angle: Seq<char>) -> Seq<char> {
    match g {
        GateType::H => seq!['H'],
        GateType::X => seq!['X'],
        GateType::Y => seq!['Y'],
        GateType::Z => seq!['Z'],
        GateType::S => seq!['S'],
        GateType::T => seq!['T'],
        GateType::Rx(_) => seq!['R', 'x', '('] + angle + seq![')'],
        GateType::Ry(_) => seq!['R', 'y', '('] + angle + seq![')'],
        GateType::Rz(_) => seq!['R', 'z', '('] + angle + seq![')'],
        GateType::Cnot => seq!['C', '+'],
        GateType::Cz => seq!['C', 'Z'],
        GateType::Swap => seq!['S', 'w', 'a', 'p'],
        GateType::Toffoli => seq!['T', 'o', 'f', 'f', 'o', 'l', 'i'],
        GateType::Barrier => seq!['|'],
        GateType::Identity => seq!['I'],
        GateType::Custom(name) => name@,
    }
}

impl GateType {
    /// Returns the number of qubits this gate operates on.
    pub fn num_qubits(&self) -> (n: usize)
        ensures
            n == spec_num_qubits(*self),
    {
        match self {
            GateType::Cnot | GateType::Cz | GateType::Swap => 2,
            GateType::Toffoli => 3,
            _ => 1,
        }
    }

    /// Returns true if this gate requires control qubits.
    pub fn is_controlled(&self) -> (b: bool)
        ensures
            b == (*self is Cnot || *self is Cz || *self is Toffoli),
    {
        match self {
            GateType::Cnot | GateType::Cz | GateType::Toffoli => true,
            _ => false,
        }
    }

    /// Returns the number of control qubits required.
    pub fn num_controls(&self) -> (n: usize)
        ensures
            n == spec_num_controls(*self),
    {
        match self {
            GateType::Cnot | GateType::Cz => 1,
            GateType::Toffoli => 2,
            _ => 0,
        }
    }

    /// Returns true if this gate has a rotation parameter (Rx, Ry, Rz).
    pub fn is_parameterized(&self) -> (b: bool)
        ensures
            b == spec_is_parameterized(*self),
    {
        match self {
            GateType::Rx(_) | GateType::Ry(_) | GateType::Rz(_) => true,
            _ => false,
        }
    }

    /// Returns the parameters of a parameterized gate (angle bits).
    pub fn parameters(&self) -> (p: Vec<u64>)
        ensures
            p@ == spec_parameters(*self),
    {
        let mut p = Vec::new();
        match self {
            GateType::Rx(t) | GateType::Ry(t) | GateType::Rz(t) => {
                p.push(*t);
            },
            _ => {},
        }
        p
    }

    /// Returns a display-friendly name; `angle` is the rotation angle as it
    /// should be shown (two decimals in the editor).
    pub fn display_name(&self, angle: &str) -> (s: String)
        ensures
            s@ == spec_display_name(*self, angle@),
    {
        proof {
            reveal_strlit("H");
            reveal_strlit("X");
            reveal_strlit("Y");
            reveal_strlit("Z");
            reveal_strlit("S");
            reveal_strlit("T");
            reveal_strlit("Rx(");
            reveal_strlit("Ry(");
            reveal_strlit("Rz(");
            reveal_strlit(")");
            reveal_strlit("C+");
            reveal_strlit("CZ");
            reveal_strlit("Swap");
            reveal_strlit("Toffoli");
            reveal_strlit("|");
            reveal_strlit("I");
        }
        match self {
            GateType::H => String::from_str("H"),
            GateType::X => String::from_str("X"),
            GateType::Y => String::from_str("Y"),
            GateType::Z => String::from_str("Z"),
            GateType::S => String::from_str("S"),
            GateType::T => String::from_str("T"),
            GateType::Rx(_) => {
                let mut s = String::from_str("Rx(");
                s.append(angle);
                s.append(")");
                s
            },
            GateType::Ry(_) => {
                let mut s = String::from_str("Ry(");
                s.append(angle);
                s.append(")");
                s
            },
            GateType::Rz(_) => {
                let mut s = String::from_str("Rz(");
                s.append(angle);
                s.append(")");
                s
            },
            GateType::Cnot => String::from_str("C+"),
            GateType::Cz => String::from_str("CZ"),
            GateType::Swap => String::from_str("Swap"),
            GateType::Toffoli => String::from_str("Toffoli"),
            GateType::Barrier => String::from_str("|"),
            GateType::Identity => String::from_str("I"),
            GateType::Custom(name) => name.clone(),
        }
    }

    /// A copy of this gate type.
    pub fn duplicate(&self) -> (g: GateType)
        ensures
            g == *self,
    {
        match self {
            GateType::H => GateType::H,
            GateType::X => GateType::X,
            GateType::Y => GateType::Y,
            GateType::Z => GateType::Z,
            GateType::S => GateType::S,
            GateType::T => GateType::T,
            GateType::Rx(t) => GateType::Rx(*t),
            GateType::Ry(t) => GateType::Ry(*t),
            GateType::Rz(t) => GateType::Rz(*t),
            GateType::Cnot => GateType::Cnot,
            GateType::Cz => GateType::Cz,
            GateType::Swap => GateType::Swap,
            GateType::Toffoli => GateType::Toffoli,
            GateType::Barrier => GateType::Barrier,
            GateType::Identity => GateType::Identity,
            GateType::Custom(name) => GateType::Custom(name.clone()),
        }
    }

    /// Whether `self` and `other` are the same gate.
    pub fn same_as(&self, other: &GateType) -> (b: bool)
        ensures
            b == same_gate(*self, *other),
    {
        match (self, other) {
            (GateType::H, GateType::H) => true,
            (GateType::X, GateType::X) => true,
            (GateType::Y, GateType::Y) => true,
            (GateType::Z, GateType::Z) => true,
            (GateType::S, GateType::S) => true,
            (GateType::T, GateType::T) => true,
            (GateType::Rx(a), GateType::Rx(b)) => *a == *b,
            (GateType::Ry(a), GateType::Ry(b)) => *a == *b,
            (GateType::Rz(a), GateType::Rz(b)) => *a == *b,
            (GateType::Cnot, GateType::Cnot) => true,
            (GateType::Cz, GateType::Cz) => true,
            (GateType::Swap, GateType::Swap) => true,
            (GateType::Toffoli, GateType::Toffoli) => true,
            (GateType::Barrier, GateType::Barrier) => true,
            (GateType::Identity, GateType::Identity) => true,
            (GateType::Custom(x), GateType::Custom(y)) => x.eq(y),
            _ => false,
        }
    }
}


/// A gate's kind, ignoring a rotation's angle and a custom gate's name.
pub open spec fn same_kind(a: GateType, b: GateType) -> bool {
    &&& (a is H) == (b is H)
    &&& (a is X) == (b is X)
    &&& (a is Y) == (b is Y)
    &&& (a is Z) == (b is Z)
    &&& (a is S) == (b is S)
    &&& (a is T) == (b is T)
    &&& (a is Rx) == (b is Rx)
    &&& (a is Ry) == (b is Ry)
    &&& (a is Rz) == (b is Rz)
    &&& (a is Cnot) == (b is Cnot)
    &&& (a is Cz) == (b is Cz)
    &&& (a is Swap) == (b is Swap)
    &&& (a is Toffoli) == (b is Toffoli)
    &&& (a is Barrier) == (b is Barrier)
    &&& (a is Identity) == (b is Identity)
}

/// A rotation's display name starts with `R`, its own axis and `(`, and
/// ends with `)` after the angle text.
pub proof fn lemma_rotation_names(t: u64, angle: Seq<char>)
    ensures
        spec_display_name(GateType::Rx(t), angle).take(3) == seq!['R', 'x', '('],
        spec_display_name(GateType::Ry(t), angle).take(3) == seq!['R', 'y', '('],
        spec_display_name(GateType::Rz(t), angle).take(3) == seq!['R', 'z', '('],
        spec_display_name(GateType::Rx(t), angle).subrange(3, angle.len() + 3int) == angle,
        spec_display_name(GateType::Ry(t), angle).subrange(3, angle.len() + 3int) == angle,
        spec_display_name(GateType::Rz(t), angle).subrange(3, angle.len() + 3int) == angle,
{
    assert((seq!['R', 'x', '('] + angle + seq![')']).take(3) =~= seq!['R', 'x', '(']);
    assert((seq!['R', 'y', '('] + angle + seq![')']).take(3) =~= seq!['R', 'y', '(']);
    assert((seq!['R', 'z', '('] + angle + seq![')']).take(3) =~= seq!['R', 'z', '(']);
    assert((seq!['R', 'x', '('] + angle + seq![')']).subrange(3, angle.len() + 3int) =~= angle);
    assert((seq!['R', 'y', '('] + angle + seq![')']).subrange(3, angle.len() + 3int) =~= angle);
    assert((seq!['R', 'z', '('] + angle + seq![')']).subrange(3, angle.len() + 3int) =~= angle);
}

/// Built-in gates of different kinds have different display names (with
/// the same angle text), so counting gates by display name keeps kinds
/// apart.
pub proof fn lemma_display_names_distinct(a: GateType, b: GateType, angle: Seq<char>)
    requires
        !(a is Custom),
        !(b is Custom),
        spec_display_name(a, angle) == spec_display_name(b, angle),
    ensures
        same_kind(a, b),
{
    let na = spec_display_name(a, angle);
    let nb = spec_display_name(b, angle);
    assert(na.len() == nb.len());
    assert(na[0] == nb[0]);
    if na.len() > 1 {
        assert(na[1] == nb[1]);
    }
    if na.len() > 2 {
        assert(na[2] == nb[2]);
    }
    if na.len() > 3 {
        assert(na[3] == nb[3]);
    }
}


/// The display names of the gates without an angle.
pub proof fn lemma_display_name_values(angle: Seq<char>)
    ensures
        spec_display_name(GateType::H, angle) == seq!['H'],
        spec_display_name(GateType::X, angle) == seq!['X'],
        spec_display_name(GateType::Y, angle) == seq!['Y'],
        spec_display_name(GateType::Z, angle) == seq!['Z'],
        spec_display_name(GateType::S, angle) == seq!['S'],
        spec_display_name(GateType::T, angle) == seq!['T'],
        spec_display_name(GateType::Cnot, angle) == seq!['C', '+'],
        spec_display_name(GateType::Cz, angle) == seq!['C', 'Z'],
        spec_display_name(GateType::Swap, angle) == seq!['S', 'w', 'a', 'p'],
        spec_display_name(GateType::Toffoli, angle) == seq!['T', 'o', 'f', 'f', 'o', 'l', 'i'],
        spec_display_name(GateType::Barrier, angle) == seq!['|'],
        spec_display_name(GateType::Identity, angle) == seq!['I'],
{
}

} // verus!
