# ketgrid

A quantum circuit editor whose core is verified with Verus.

- `src/` — the verified library: the circuit model (`circuit`, `gate`,
  `wire`), the `.ket.json` mapping and OpenQASM 2.0 export, parsing and
  import (`format`), gate placement and selection (`editor`), the editing
  commands and their undo/redo history (`commands`, `history`), the
  simulation and step-through schedules (`schedule`), keyboard shortcuts
  (`shortcuts`), entanglement clusters (`entanglement`), statistics
  (`stats`), view helpers (`view`) and the example catalogue (`examples`).
- `tests/` — tests of the library.
- `app/` — the egui desktop application around it: windows and drawing,
  file dialogs, the state-vector simulator and Bloch spheres (floating
  point), and serde copies of the document types.
