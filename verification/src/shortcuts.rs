//! Keyboard shortcuts of the circuit editor: which editing commands the
//! keys pressed in one frame ask for.
use vstd::prelude::*;

verus! {

/// The keys pressed in one frame, and the modifiers held.
#[derive(Debug, Clone, Copy)]
pub struct KeyInput {
    pub ctrl: bool,
    pub shift: bool,
    pub escape: bool,
    pub z: bool,
    pub y: bool,
    pub c: bool,
    pub v: bool,
    pub delete: bool,
    pub plus: bool,
    pub equals: bool,
    pub minus: bool,
}

/// An editing command a shortcut asks for.
#[derive(Debug, Clone, Copy, PartialEq, Eq, Structural)]
pub enum Shortcut {
    /// Escape: cancel a pending placement and the palette selection.
    CancelPlacement,
    /// Ctrl+Z.
    Undo,
    /// Ctrl+Y or Ctrl+Shift+Z.
    Redo,
    /// Ctrl+C.
    Copy,
    /// Ctrl+V.
    Paste,
    /// Delete.
    DeleteSelected,
    /// `+` or `=`.
    AddQubit,
    /// `-`.
    RemoveQubit,
}

/// `s` alone when `b` holds, nothing otherwise.
pub open spec fn when(b: bool, s: Shortcut) -> Seq<Shortcut> {
    if b { seq![s] } else { Seq::empty() }
}

/// The commands the keys ask for, in the order the editor carries them out.
pub open spec fn shortcut_list(k: KeyInput) -> Seq<Shortcut> {
    when(k.escape, Shortcut::CancelPlacement)
        + when(k.ctrl && k.z && !k.shift, Shortcut::Undo)
        + when(k.ctrl && (k.y || (k.z && k.shift)), Shortcut::Redo)
        + when(k.ctrl && k.c, Shortcut::Copy)
        + when(k.ctrl && k.v, Shortcut::Paste)
        + when(k.delete, Shortcut::DeleteSelected)
        + when(k.plus || k.equals, Shortcut::AddQubit)
        + when(k.minus, Shortcut::RemoveQubit)
}

fn push_when(v: &mut Vec<Shortcut>, b: bool, s: Shortcut)
    ensures
        final(v)@ == old(v)@ + when(b, s),
{
    if b {
        v.push(s);
    } else {
        assert(old(v)@ + when(b, s) =~= old(v)@);
    }
}

/// The commands the keys pressed in one frame ask for, in order.
pub fn shortcuts(k: &KeyInput) -> (v: Vec<Shortcut>)
    ensures
        v@ == shortcut_list(*k),
{
    let mut v: Vec<Shortcut> = Vec::new();
    assert(v@ == Seq::<Shortcut>::empty());
    push_when(&mut v, k.escape, Shortcut::CancelPlacement);
    assert(v@ =~= when(k.escape, Shortcut::CancelPlacement));
    push_when(&mut v, k.ctrl && k.z && !k.shift, Shortcut::Undo);
    push_when(&mut v, k.ctrl && (k.y || (k.z && k.shift)), Shortcut::Redo);
    push_when(&mut v, k.ctrl && k.c, Shortcut::Copy);
    push_when(&mut v, k.ctrl && k.v, Shortcut::Paste);
    push_when(&mut v, k.delete, Shortcut::DeleteSelected);
    push_when(&mut v, k.plus || k.equals, Shortcut::AddQubit);
    push_when(&mut v, k.minus, Shortcut::RemoveQubit);
    v
}

/// Undo and redo never both come from Z: with Ctrl held, Z asks for undo
/// without Shift and for redo with it.
pub proof fn lemma_z_is_undo_or_redo(k: KeyInput)
    requires
        k.ctrl,
        k.z,
        !k.y,
    ensures
        shortcut_list(k).contains(Shortcut::Undo) != shortcut_list(k).contains(Shortcut::Redo),
{
    let l = shortcut_list(k);
    let pre = when(k.escape, Shortcut::CancelPlacement);
    if k.shift {
        assert(l[pre.len() as int] == Shortcut::Redo);
        assert forall|i: int| 0 <= i < l.len() implies l[i] != Shortcut::Undo by {}
    } else {
        assert(l[pre.len() as int] == Shortcut::Undo);
        assert forall|i: int| 0 <= i < l.len() implies l[i] != Shortcut::Redo by {}
    }
}

} // verus!
