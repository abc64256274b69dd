//! The decisions behind background simulation and step-through mode: what
//! to simulate, and when. The application does the work (timers, threads,
//! the simulator) and reports what happened; these functions say what the
//! state becomes and what work comes next.
use vstd::prelude::*;
use crate::circuit::Circuit;
use crate::view::{compute_step_columns, is_step_columns};

verus! {

/// Errors that can occur during simulation.
#[derive(Debug, Clone, PartialEq)]
pub enum SimulationError {
    /// The circuit cannot be simulated.
    InvalidCircuit(String),
    /// The simulation did not complete.
    SimulationFailed(String),
}

/// The text of a simulation error.
pub open spec fn simulation_error_text(e: SimulationError) -> Seq<char> {
    match e {
        SimulationError::InvalidCircuit(m) => "Invalid circuit: "@ + m@,
        SimulationError::SimulationFailed(m) => "Simulation failed: "@ + m@,
    }
}

impl SimulationError {
    /// The error as text.
    pub fn message(&self) -> (s: String)
        ensures
            s@ == simulation_error_text(*self),
    {
        let (prefix, m) = match self {
            SimulationError::InvalidCircuit(m) => ("Invalid circuit: ", m),
            SimulationError::SimulationFailed(m) => ("Simulation failed: ", m),
        };
        let mut s = String::from_str(prefix);
        s.append(m.as_str());
        s
    }
}

/// Largest circuit (in qubits) simulated automatically after an edit.
pub const AUTO_SIM_MAX_QUBITS: usize = 15;

/// What the background simulation keeps track of.
#[derive(Debug, Clone, Copy, PartialEq, Eq, Structural)]
pub struct SimSchedule {
    /// The results on display are out of date.
    pub stale: bool,
    /// Earliest column edited since the kept simulator ran, for a run that
    /// starts from there.
    pub dirty_column: Option<usize>,
    /// An edit waits for the debounce delay before it is simulated.
    pub waiting: bool,
    /// A background simulation is running.
    pub running: bool,
    /// Qubit count of the simulator kept from the last run, if one is kept.
    pub kept_qubits: Option<usize>,
}

/// How a background simulation runs.
#[derive(Debug, Clone, Copy, PartialEq, Eq, Structural)]
pub enum SimRun {
    /// Continue the kept simulator from this column on.
    FromColumn(usize),
    /// Simulate the whole circuit with a fresh simulator.
    Full,
}

/// The earliest edited column after an edit at `column` (`None`: the whole
/// circuit changed).
pub open spec fn merged_dirty(existing: Option<usize>, column: Option<usize>) -> Option<usize> {
    match column {
        Some(c) => match existing {
            Some(e) => Some(if e < c { e } else { c }),
            None => Some(c),
        },
        None => None,
    }
}

impl SimSchedule {
    /// The schedule after a simulation made at start-up, of a circuit of
    /// `kept_qubits` qubits, if any.
    pub fn new(kept_qubits: Option<usize>) -> (s: SimSchedule)
        ensures
            s == (SimSchedule { stale: false, dirty_column: None, waiting: false, running: false, kept_qubits }),
    {
        SimSchedule { stale: false, dirty_column: None, waiting: false, running: false, kept_qubits }
    }

    /// Records an edit of the circuit (now of `circuit_qubits` qubits) at
    /// `column`, or of its structure (`None`). The results become out of
    /// date; a structural edit, or a kept simulator of another size, drops
    /// the kept simulator; small circuits wait for the debounce delay.
    /// Returns whether the kept simulator is to be dropped.
    pub fn mark_dirty(&mut self, column: Option<usize>, circuit_qubits: usize) -> (drop_kept: bool)
        ensures
            final(self).stale,
            final(self).running == old(self).running,
            final(self).kept_qubits == (if column is None || (old(self).kept_qubits matches Some(q) && q != circuit_qubits) {
                None
            } else {
                old(self).kept_qubits
            }),
            final(self).dirty_column == (if old(self).kept_qubits matches Some(q) && q != circuit_qubits && column is Some {
                None
            } else {
                merged_dirty(old(self).dirty_column, column)
            }),
            final(self).waiting == (old(self).waiting || circuit_qubits <= AUTO_SIM_MAX_QUBITS),
            drop_kept == (old(self).kept_qubits is Some && final(self).kept_qubits is None),
    {
        let had = self.kept_qubits.is_some();
        self.stale = true;
        match column {
            Some(c) => {
                self.dirty_column = match self.dirty_column {
                    Some(e) => Some(if e < c { e } else { c }),
                    None => Some(c),
                };
            },
            None => {
                self.dirty_column = None;
                self.kept_qubits = None;
            },
        }
        match self.kept_qubits {
            Some(q) => {
                if q != circuit_qubits {
                    self.kept_qubits = None;
                    self.dirty_column = None;
                }
            },
            None => {},
        }
        if circuit_qubits <= AUTO_SIM_MAX_QUBITS {
            self.waiting = true;
        }
        had && self.kept_qubits.is_none()
    }

    /// Starts a background simulation of a circuit of `circuit_qubits`
    /// qubits: from the earliest edited column when a simulator of that size
    /// is kept and one is known, in full otherwise. The kept simulator goes
    /// to the run.
    pub fn start(&mut self, circuit_qubits: usize) -> (run: SimRun)
        ensures
            run == (if old(self).kept_qubits == Some(circuit_qubits) && old(self).dirty_column is Some {
                SimRun::FromColumn(old(self).dirty_column->Some_0)
            } else {
                SimRun::Full
            }),
            *final(self) == (SimSchedule { running: true, kept_qubits: None, dirty_column: None, ..*old(self) }),
    {
        let run = match (self.kept_qubits, self.dirty_column) {
            (Some(q), Some(c)) => if q == circuit_qubits { SimRun::FromColumn(c) } else { SimRun::Full },
            _ => SimRun::Full,
        };
        self.kept_qubits = None;
        self.dirty_column = None;
        self.running = true;
        run
    }

    /// A background run finished with a simulator of `result_qubits`
    /// qubits, which is kept. The results are up to date unless an edit
    /// waits to be simulated.
    pub fn finish(&mut self, result_qubits: usize)
        ensures
            *final(self) == (SimSchedule {
                running: false,
                kept_qubits: Some(result_qubits),
                stale: old(self).stale && old(self).waiting,
                ..*old(self)
            }),
    {
        self.kept_qubits = Some(result_qubits);
        self.running = false;
        if !self.waiting {
            self.stale = false;
        }
    }

    /// Called as time passes: when an edit waits, the debounce delay is
    /// over (`delay_over`) and no run is going on, the wait ends and a run
    /// is to start. Returns whether to start one.
    pub fn poll(&mut self, delay_over: bool) -> (start_now: bool)
        ensures
            start_now == (old(self).waiting && delay_over && !old(self).running),
            *final(self) == (SimSchedule { waiting: old(self).waiting && !start_now, ..*old(self) }),
    {
        if self.waiting && delay_over && !self.running {
            self.waiting = false;
            true
        } else {
            false
        }
    }

    /// A run asked for by hand: when none is going on and the circuit has
    /// qubits, the wait ends and a run is to start. Returns whether to start one.
    pub fn force(&mut self, circuit_qubits: usize) -> (start_now: bool)
        ensures
            start_now == (!old(self).running && circuit_qubits > 0),
            *final(self) == (SimSchedule { waiting: old(self).waiting && !start_now, ..*old(self) }),
    {
        if !self.running && circuit_qubits > 0 {
            self.waiting = false;
            true
        } else {
            false
        }
    }
}

/// What the step simulator is to do.
#[derive(Debug, Clone, Copy, PartialEq, Eq, Structural)]
pub enum StepWork {
    /// Nothing.
    Nothing,
    /// Drop the step simulator (the circuit has no qubits).
    Clear,
    /// Start again from |0…0⟩ and, when a column is given, apply every
    /// column up to and including it.
    Rebuild(Option<usize>),
    /// Apply the gates of this one column to the current state.
    ApplyColumn(usize),
}

/// Step-through mode: its gate columns, how many of them are applied, and
/// whether playback advances on its own.
#[derive(Debug)]
pub struct StepState {
    /// Whether step-through mode is on.
    pub active: bool,
    /// How many of `columns` are applied (0: the initial state).
    pub position: usize,
    /// The distinct gate columns, ascending.
    pub columns: Vec<usize>,
    /// Whether playback is running.
    pub playing: bool,
}

/// The work that brings the step simulator to `position` from scratch.
pub open spec fn rebuild_work(position: usize, columns: Seq<usize>, circuit_qubits: usize) -> StepWork {
    if circuit_qubits == 0 {
        StepWork::Clear
    } else if position > 0 {
        StepWork::Rebuild(Some(columns[position - 1]))
    } else {
        StepWork::Rebuild(None)
    }
}

impl StepState {
    /// Step-through mode off.
    pub fn new() -> (s: StepState)
        ensures
            !s.active && s.position == 0 && s.columns@.len() == 0 && !s.playing,
    {
        StepState { active: false, position: 0, columns: Vec::new(), playing: false }
    }

    fn rebuild(&self, circuit_qubits: usize) -> (w: StepWork)
        requires
            circuit_qubits == 0 || self.position <= self.columns@.len(),
        ensures
            w == rebuild_work(self.position, self.columns@, circuit_qubits),
    {
        if circuit_qubits == 0 {
            StepWork::Clear
        } else if self.position > 0 {
            StepWork::Rebuild(Some(self.columns[self.position - 1]))
        } else {
            StepWork::Rebuild(None)
        }
    }

    /// Turns step-through mode on at the initial state, with the circuit's
    /// gate columns; playback is stopped.
    pub fn enter(&mut self, circuit: &Circuit) -> (w: StepWork)
        ensures
            final(self).active,
            !final(self).playing,
            final(self).position == 0,
            is_step_columns(circuit@.gates, final(self).columns@),
            w == rebuild_work(0, final(self).columns@, circuit.qubits@.len() as usize),
    {
        self.active = true;
        self.playing = false;
        self.columns = compute_step_columns(circuit);
        self.position = 0;
        self.rebuild(circuit.qubits.len())
    }

    /// Turns step-through mode off; the step simulator is dropped.
    pub fn exit(&mut self)
        ensures
            !final(self).active && !final(self).playing && final(self).position == 0 && final(self).columns@.len() == 0,
    {
        self.active = false;
        self.playing = false;
        self.columns = Vec::new();
        self.position = 0;
    }

    /// Applies the next column: to the step simulator when there is one
    /// (`has_simulator`), else by rebuilding it. At the last column nothing
    /// happens (`Nothing`).
    pub fn forward(&mut self, has_simulator: bool, circuit_qubits: usize) -> (w: StepWork)
        ensures
            old(self).position >= old(self).columns@.len() ==> w == StepWork::Nothing && final(self).position == old(self).position,
            old(self).position < old(self).columns@.len() ==> final(self).position == old(self).position + 1
                && w == (if has_simulator {
                    StepWork::ApplyColumn(old(self).columns@[old(self).position as int])
                } else {
                    rebuild_work(final(self).position, old(self).columns@, circuit_qubits)
                }),
            final(self).columns@ == old(self).columns@,
            final(self).active == old(self).active,
            final(self).playing == old(self).playing,
    {
        if self.position >= self.columns.len() {
            return StepWork::Nothing;
        }
        let col = self.columns[self.position];
        self.position = self.position + 1;
        if has_simulator {
            StepWork::ApplyColumn(col)
        } else {
            self.rebuild(circuit_qubits)
        }
    }

    /// Goes back one column, rebuilding the step simulator; at the initial
    /// state nothing happens.
    pub fn back(&mut self, circuit_qubits: usize) -> (w: StepWork)
        requires
            circuit_qubits == 0 || old(self).position <= old(self).columns@.len() + 1,
        ensures
            old(self).position == 0 ==> w == StepWork::Nothing && final(self).position == 0,
            old(self).position > 0 ==> final(self).position == old(self).position - 1
                && w == rebuild_work(final(self).position, old(self).columns@, circuit_qubits),
            final(self).columns@ == old(self).columns@,
            final(self).active == old(self).active,
            final(self).playing == old(self).playing,
    {
        if self.position == 0 {
            return StepWork::Nothing;
        }
        self.position = self.position - 1;
        self.rebuild(circuit_qubits)
    }

    /// Goes back to the initial state and stops playback.
    pub fn reset(&mut self, circuit_qubits: usize) -> (w: StepWork)
        ensures
            final(self).position == 0,
            !final(self).playing,
            final(self).columns@ == old(self).columns@,
            final(self).active == old(self).active,
            w == rebuild_work(0, old(self).columns@, circuit_qubits),
    {
        self.position = 0;
        self.playing = false;
        self.rebuild(circuit_qubits)
    }

    /// After an edit of the circuit: in step-through mode the columns are
    /// computed again, the step position goes back to the initial state,
    /// playback stops and the step simulator is rebuilt; otherwise nothing
    /// happens.
    pub fn circuit_changed(&mut self, circuit: &Circuit) -> (w: StepWork)
        ensures
            !old(self).active ==> w == StepWork::Nothing && final(self).position == old(self).position
                && final(self).columns@ == old(self).columns@ && final(self).playing == old(self).playing,
            old(self).active ==> is_step_columns(circuit@.gates, final(self).columns@)
                && final(self).position == 0
                && !final(self).playing
                && w == rebuild_work(0, final(self).columns@, circuit.qubits@.len() as usize),
            final(self).active == old(self).active,
    {
        if !self.active {
            return StepWork::Nothing;
        }
        self.columns = compute_step_columns(circuit);
        self.position = 0;
        self.playing = false;
        self.rebuild(circuit.qubits.len())
    }

    /// One playback tick (the delay since the last one is over): steps
    /// forward, and stops playback at the last column.
    pub fn advance_playback(&mut self, has_simulator: bool, circuit_qubits: usize) -> (w: StepWork)
        ensures
            old(self).position >= old(self).columns@.len() ==> w == StepWork::Nothing
                && final(self).position == old(self).position && !final(self).playing,
            old(self).position < old(self).columns@.len() ==> final(self).position == old(self).position + 1
                && final(self).playing == old(self).playing
                && w == (if has_simulator {
                    StepWork::ApplyColumn(old(self).columns@[old(self).position as int])
                } else {
                    rebuild_work(final(self).position, old(self).columns@, circuit_qubits)
                }),
            final(self).columns@ == old(self).columns@,
            final(self).active == old(self).active,
    {
        let w = self.forward(has_simulator, circuit_qubits);
        if w == StepWork::Nothing {
            self.playing = false;
        }
        w
    }
}

} // verus!
