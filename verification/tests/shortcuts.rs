use ketgrid::shortcuts::{shortcuts, KeyInput, Shortcut};

fn none() -> KeyInput {
    KeyInput {
        ctrl: false,
        shift: false,
        escape: false,
        z: false,
        y: false,
        c: false,
        v: false,
        delete: false,
        plus: false,
        equals: false,
        minus: false,
    }
}

#[test]
fn no_keys_no_commands() {
    assert!(shortcuts(&none()).is_empty());
}

#[test]
fn ctrl_z_undoes() {
    let k = KeyInput { ctrl: true, z: true, ..none() };
    assert_eq!(shortcuts(&k), vec![Shortcut::Undo]);
}

#[test]
fn ctrl_shift_z_redoes() {
    let k = KeyInput { ctrl: true, shift: true, z: true, ..none() };
    assert_eq!(shortcuts(&k), vec![Shortcut::Redo]);
}

#[test]
fn ctrl_y_redoes() {
    let k = KeyInput { ctrl: true, y: true, ..none() };
    assert_eq!(shortcuts(&k), vec![Shortcut::Redo]);
}

#[test]
fn z_without_ctrl_does_nothing() {
    let k = KeyInput { z: true, y: true, c: true, v: true, ..none() };
    assert!(shortcuts(&k).is_empty());
}

#[test]
fn copy_paste_delete_and_wires() {
    let k = KeyInput { ctrl: true, c: true, v: true, ..none() };
    assert_eq!(shortcuts(&k), vec![Shortcut::Copy, Shortcut::Paste]);
    let k = KeyInput { delete: true, equals: true, minus: true, ..none() };
    assert_eq!(shortcuts(&k), vec![Shortcut::DeleteSelected, Shortcut::AddQubit, Shortcut::RemoveQubit]);
    let k = KeyInput { plus: true, ..none() };
    assert_eq!(shortcuts(&k), vec![Shortcut::AddQubit]);
}

#[test]
fn escape_comes_first() {
    let k = KeyInput { escape: true, ctrl: true, z: true, minus: true, ..none() };
    assert_eq!(shortcuts(&k), vec![Shortcut::CancelPlacement, Shortcut::Undo, Shortcut::RemoveQubit]);
}
