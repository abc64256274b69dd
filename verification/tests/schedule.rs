use ketgrid::circuit::Circuit;
use ketgrid::gate::GateType;
use ketgrid::schedule::{SimRun, SimSchedule, StepState, StepWork, AUTO_SIM_MAX_QUBITS};

#[test]
fn schedule_incremental_run_after_column_edits() {
    let mut s = SimSchedule::new(Some(3));
    assert!(!s.stale);
    assert!(!s.mark_dirty(Some(5), 3));
    assert!(s.stale && s.waiting);
    assert_eq!(s.dirty_column, Some(5));
    assert!(!s.mark_dirty(Some(2), 3));
    assert!(!s.mark_dirty(Some(4), 3));
    assert_eq!(s.dirty_column, Some(2));
    assert!(!s.poll(false));
    assert!(s.poll(true));
    assert!(!s.waiting);
    assert_eq!(s.start(3), SimRun::FromColumn(2));
    assert!(s.running);
    assert_eq!(s.kept_qubits, None);
    assert_eq!(s.dirty_column, None);
    // No second run while one is going on.
    s.mark_dirty(Some(1), 3);
    assert!(!s.poll(true));
    s.finish(3);
    assert!(!s.running);
    assert_eq!(s.kept_qubits, Some(3));
    // An edit waits: the results stay out of date.
    assert!(s.stale);
    assert!(s.poll(true));
    assert_eq!(s.start(3), SimRun::FromColumn(1));
    s.finish(3);
    assert!(!s.stale);
}

#[test]
fn schedule_structural_edit_drops_simulator() {
    let mut s = SimSchedule::new(Some(3));
    s.mark_dirty(Some(1), 3);
    assert!(s.mark_dirty(None, 4));
    assert_eq!(s.kept_qubits, None);
    assert_eq!(s.dirty_column, None);
    assert_eq!(s.start(4), SimRun::Full);
}

#[test]
fn schedule_size_change_drops_simulator() {
    let mut s = SimSchedule::new(Some(3));
    assert!(s.mark_dirty(Some(1), 4));
    assert_eq!(s.kept_qubits, None);
    assert_eq!(s.dirty_column, None);
}

#[test]
fn schedule_large_circuits_wait_for_a_manual_run() {
    let mut s = SimSchedule::new(None);
    s.mark_dirty(Some(0), AUTO_SIM_MAX_QUBITS + 5);
    assert!(s.stale);
    assert!(!s.waiting);
    assert!(!s.poll(true));
    assert!(s.force(AUTO_SIM_MAX_QUBITS + 5));
    assert_eq!(s.start(AUTO_SIM_MAX_QUBITS + 5), SimRun::Full);
    assert!(!s.force(AUTO_SIM_MAX_QUBITS + 5));
    let mut empty = SimSchedule::new(None);
    assert!(!empty.force(0));
}

fn bell() -> Circuit {
    let mut c = Circuit::new(2);
    c.add_gate(GateType::H, vec![0], vec![], 0).unwrap();
    c.add_gate(GateType::Cnot, vec![1], vec![0], 3).unwrap();
    c.add_measurement(0, 4).unwrap();
    c
}

#[test]
fn steps_forward_back_and_reset() {
    let c = bell();
    let mut st = StepState::new();
    assert!(!st.active);
    assert_eq!(st.enter(&c), StepWork::Rebuild(None));
    assert!(st.active);
    assert_eq!(st.columns, vec![0, 3]);
    assert_eq!(st.forward(true, 2), StepWork::ApplyColumn(0));
    assert_eq!(st.position, 1);
    assert_eq!(st.forward(false, 2), StepWork::Rebuild(Some(3)));
    assert_eq!(st.position, 2);
    assert_eq!(st.forward(true, 2), StepWork::Nothing);
    assert_eq!(st.back(2), StepWork::Rebuild(Some(0)));
    assert_eq!(st.position, 1);
    assert_eq!(st.back(2), StepWork::Rebuild(None));
    assert_eq!(st.back(2), StepWork::Nothing);
    st.forward(true, 2);
    st.playing = true;
    assert_eq!(st.reset(2), StepWork::Rebuild(None));
    assert_eq!(st.position, 0);
    assert!(!st.playing);
    st.exit();
    assert!(!st.active);
    assert!(st.columns.is_empty());
}

#[test]
fn steps_playback_stops_at_the_end() {
    let c = bell();
    let mut st = StepState::new();
    st.enter(&c);
    st.playing = true;
    assert_eq!(st.advance_playback(true, 2), StepWork::ApplyColumn(0));
    assert!(st.playing);
    assert_eq!(st.advance_playback(true, 2), StepWork::ApplyColumn(3));
    assert_eq!(st.advance_playback(true, 2), StepWork::Nothing);
    assert!(!st.playing);
}

#[test]
fn steps_follow_circuit_edits() {
    let mut c = bell();
    let mut st = StepState::new();
    assert_eq!(st.circuit_changed(&c), StepWork::Nothing);
    st.enter(&c);
    st.forward(true, 2);
    st.forward(true, 2);
    st.playing = true;
    c.remove_gate(1);
    assert_eq!(st.circuit_changed(&c), StepWork::Rebuild(None));
    assert_eq!(st.columns, vec![0]);
    assert_eq!(st.position, 0);
    assert!(!st.playing);
    let empty = Circuit::new(0);
    assert_eq!(st.circuit_changed(&empty), StepWork::Clear);
    assert_eq!(st.position, 0);
}
