//! The catalogue of example circuits and the example browser's state:
//! category and text filters, selection, and where example files live.
use vstd::prelude::*;
use crate::text::push_decimal;
use crate::text::decimal;

verus! {

/// Categories for organizing example circuits.
#[derive(Debug, Clone, Copy, PartialEq, Eq, Structural)]
pub enum ExampleCategory {
    /// Basic quantum gates and states.
    Fundamentals,
    /// Quantum algorithms and protocols.
    Algorithms,
    /// Error correction codes.
    ErrorCorrection,
}

/// The name a category is shown with.
pub open spec fn category_name(c: ExampleCategory) -> Seq<char> {
    match c {
        ExampleCategory::Fundamentals => "Fundamentals"@,
        ExampleCategory::Algorithms => "Algorithms"@,
        ExampleCategory::ErrorCorrection => "Error-Correction"@,
    }
}

impl ExampleCategory {
    /// Returns the display name for the category.
    pub fn display_name(&self) -> (s: &'static str)
        ensures
            s@ == category_name(*self),
    {
        match self {
            ExampleCategory::Fundamentals => "Fundamentals",
            ExampleCategory::Algorithms => "Algorithms",
            ExampleCategory::ErrorCorrection => "Error-Correction",
        }
    }

    /// Returns all categories in order.
    pub fn all() -> (v: Vec<ExampleCategory>)
        ensures
            v@ == seq![ExampleCategory::Fundamentals, ExampleCategory::Algorithms, ExampleCategory::ErrorCorrection],
    {
        let v = vec![ExampleCategory::Fundamentals, ExampleCategory::Algorithms, ExampleCategory::ErrorCorrection];
        assert(v@ =~= seq![ExampleCategory::Fundamentals, ExampleCategory::Algorithms, ExampleCategory::ErrorCorrection]);
        v
    }
}

/// Metadata for a single example circuit.
#[derive(Debug, Clone)]
pub struct Example {
    /// The file name (without extension).
    pub file_name: String,
    /// Display name for the example.
    pub name: String,
    /// Description of what the example demonstrates.
    pub description: String,
    /// Number of qubits in the circuit.
    pub qubit_count: usize,
    /// Gate count in the circuit.
    pub gate_count: usize,
    /// Which category this example belongs to.
    pub category: ExampleCategory,
}

/// Model of an example's metadata.
pub struct ExampleView {
    pub file_name: Seq<char>,
    pub name: Seq<char>,
    pub description: Seq<char>,
    pub qubit_count: usize,
    pub gate_count: usize,
    pub category: ExampleCategory,
}

impl View for Example {
    type V = ExampleView;

    open spec fn view(&self) -> ExampleView {
        ExampleView {
            file_name: self.file_name@,
            name: self.name@,
            description: self.description@,
            qubit_count: self.qubit_count,
            gate_count: self.gate_count,
            category: self.category,
        }
    }
}

/// `<q> qubits, <g> gates`.
pub open spec fn preview(e: ExampleView) -> Seq<char> {
    decimal(e.qubit_count as nat) + " qubits, "@ + decimal(e.gate_count as nat) + " gates"@
}

impl Example {
    /// Returns a short preview text for the example.
    pub fn preview_text(&self) -> (s: String)
        ensures
            s@ == preview(self@),
    {
        let mut s = String::new();
        push_decimal(&mut s, self.qubit_count);
        s.append(" qubits, ");
        push_decimal(&mut s, self.gate_count);
        s.append(" gates");
        s
    }
}

/// The example circuits, in the order the browser lists them.
pub open spec fn catalogue() -> Seq<ExampleView> {
    seq![
        ExampleView { file_name: "hadamard"@, name: "Hadamard Gate"@, description: "Creates equal superposition of |0⟩ and |1⟩. Fundamental for quantum parallelism."@, qubit_count: 1, gate_count: 1, category: ExampleCategory::Fundamentals },
        ExampleView { file_name: "pauli-x"@, name: "Pauli-X Gate"@, description: "Quantum NOT gate. Flips |0⟩ to |1⟩ and vice versa."@, qubit_count: 1, gate_count: 1, category: ExampleCategory::Fundamentals },
        ExampleView { file_name: "pauli-y"@, name: "Pauli-Y Gate"@, description: "Rotates Bloch vector by π around Y-axis. Combines bit and phase flips."@, qubit_count: 1, gate_count: 1, category: ExampleCategory::Fundamentals },
        ExampleView { file_name: "pauli-z"@, name: "Pauli-Z Gate"@, description: "Phase flip gate. Leaves |0⟩ unchanged, flips sign of |1⟩."@, qubit_count: 1, gate_count: 3, category: ExampleCategory::Fundamentals },
        ExampleView { file_name: "phase-gate"@, name: "Phase Gate (S)"@, description: "Applies π/2 phase shift to |1⟩. Universal gate set component."@, qubit_count: 1, gate_count: 2, category: ExampleCategory::Fundamentals },
        ExampleView { file_name: "t-gate"@, name: "T Gate (π/8)"@, description: "Applies π/4 phase shift. Essential for quantum error correction."@, qubit_count: 1, gate_count: 2, category: ExampleCategory::Fundamentals },
        ExampleView { file_name: "rotation-gates"@, name: "Rotation Gates"@, description: "Demonstrates Rx, Ry, Rz parameterized rotation gates."@, qubit_count: 1, gate_count: 3, category: ExampleCategory::Fundamentals },
        ExampleView { file_name: "swap"@, name: "SWAP Gate"@, description: "Exchanges quantum states between two qubits."@, qubit_count: 2, gate_count: 2, category: ExampleCategory::Fundamentals },
        ExampleView { file_name: "toffoli"@, name: "Toffoli (CCNOT)"@, description: "Universal reversible logic gate with two controls."@, qubit_count: 3, gate_count: 3, category: ExampleCategory::Fundamentals },
        ExampleView { file_name: "bell"@, name: "Bell State"@, description: "Creates maximally entangled Bell pair |Φ+⟩."@, qubit_count: 2, gate_count: 2, category: ExampleCategory::Algorithms },
        ExampleView { file_name: "ghz"@, name: "GHZ State"@, description: "3-qubit Greenberger-Horne-Zeilinger entangled state."@, qubit_count: 3, gate_count: 3, category: ExampleCategory::Algorithms },
        ExampleView { file_name: "teleportation"@, name: "Quantum Teleportation"@, description: "Transfers quantum state using entanglement and classical bits."@, qubit_count: 3, gate_count: 5, category: ExampleCategory::Algorithms },
        ExampleView { file_name: "superdense-coding"@, name: "Superdense Coding"@, description: "Transmits 2 classical bits using 1 qubit and entanglement."@, qubit_count: 2, gate_count: 8, category: ExampleCategory::Algorithms },
        ExampleView { file_name: "deutsch-jozsa"@, name: "Deutsch-Jozsa Algorithm"@, description: "Determines if function is constant or balanced in 1 query."@, qubit_count: 2, gate_count: 5, category: ExampleCategory::Algorithms },
        ExampleView { file_name: "bernstein-vazirani"@, name: "Bernstein-Vazirani"@, description: "Recovers hidden string in a single quantum query."@, qubit_count: 4, gate_count: 10, category: ExampleCategory::Algorithms },
        ExampleView { file_name: "grover-2qubit"@, name: "Grover's Algorithm"@, description: "Searches unsorted database with quadratic speedup."@, qubit_count: 2, gate_count: 11, category: ExampleCategory::Algorithms },
        ExampleView { file_name: "simon-algorithm"@, name: "Simon's Algorithm"@, description: "Finds hidden string exponentially faster than classical."@, qubit_count: 4, gate_count: 6, category: ExampleCategory::Algorithms },
        ExampleView { file_name: "qft-3qubit"@, name: "Quantum Fourier Transform"@, description: "Transforms to Fourier basis. Core of many quantum algorithms."@, qubit_count: 3, gate_count: 6, category: ExampleCategory::Algorithms },
        ExampleView { file_name: "bit-flip-code"@, name: "3-Qubit Bit-Flip Code"@, description: "Protects against X (bit-flip) errors using 3 qubits."@, qubit_count: 3, gate_count: 11, category: ExampleCategory::ErrorCorrection },
        ExampleView { file_name: "phase-flip-code"@, name: "3-Qubit Phase-Flip Code"@, description: "Protects against Z (phase-flip) errors in Hadamard basis."@, qubit_count: 3, gate_count: 14, category: ExampleCategory::ErrorCorrection },
        ExampleView { file_name: "shor-code"@, name: "Shor's 9-Qubit Code"@, description: "First code protecting against arbitrary single-qubit errors."@, qubit_count: 9, gate_count: 13, category: ExampleCategory::ErrorCorrection }
    ]
}

fn entry(file_name: &str, name: &str, description: &str, qubit_count: usize, gate_count: usize, category: ExampleCategory) -> (e: Example)
    ensures
        e@ == (ExampleView { file_name: file_name@, name: name@, description: description@, qubit_count, gate_count, category }),
{
    Example {
        file_name: String::from_str(file_name),
        name: String::from_str(name),
        description: String::from_str(description),
        qubit_count,
        gate_count,
        category,
    }
}

/// The models of a list of examples.
pub open spec fn example_views(es: Seq<Example>) -> Seq<ExampleView> {
    es.map_values(|e: Example| e@)
}

/// The complete list of example circuits with metadata.
#[verifier::rlimit(60)]
fn example_list() -> (v: Vec<Example>)
    ensures
        example_views(v@) == catalogue(),
{
    let mut v: Vec<Example> = Vec::new();
    v.push(entry("hadamard", "Hadamard Gate", "Creates equal superposition of |0⟩ and |1⟩. Fundamental for quantum parallelism.", 1, 1, ExampleCategory::Fundamentals));
    v.push(entry("pauli-x", "Pauli-X Gate", "Quantum NOT gate. Flips |0⟩ to |1⟩ and vice versa.", 1, 1, ExampleCategory::Fundamentals));
    v.push(entry("pauli-y", "Pauli-Y Gate", "Rotates Bloch vector by π around Y-axis. Combines bit and phase flips.", 1, 1, ExampleCategory::Fundamentals));
    v.push(entry("pauli-z", "Pauli-Z Gate", "Phase flip gate. Leaves |0⟩ unchanged, flips sign of |1⟩.", 1, 3, ExampleCategory::Fundamentals));
    v.push(entry("phase-gate", "Phase Gate (S)", "Applies π/2 phase shift to |1⟩. Universal gate set component.", 1, 2, ExampleCategory::Fundamentals));
    v.push(entry("t-gate", "T Gate (π/8)", "Applies π/4 phase shift. Essential for quantum error correction.", 1, 2, ExampleCategory::Fundamentals));
    v.push(entry("rotation-gates", "Rotation Gates", "Demonstrates Rx, Ry, Rz parameterized rotation gates.", 1, 3, ExampleCategory::Fundamentals));
    v.push(entry("swap", "SWAP Gate", "Exchanges quantum states between two qubits.", 2, 2, ExampleCategory::Fundamentals));
    v.push(entry("toffoli", "Toffoli (CCNOT)", "Universal reversible logic gate with two controls.", 3, 3, ExampleCategory::Fundamentals));
    v.push(entry("bell", "Bell State", "Creates maximally entangled Bell pair |Φ+⟩.", 2, 2, ExampleCategory::Algorithms));
    v.push(entry("ghz", "GHZ State", "3-qubit Greenberger-Horne-Zeilinger entangled state.", 3, 3, ExampleCategory::Algorithms));
    v.push(entry("teleportation", "Quantum Teleportation", "Transfers quantum state using entanglement and classical bits.", 3, 5, ExampleCategory::Algorithms));
    v.push(entry("superdense-coding", "Superdense Coding", "Transmits 2 classical bits using 1 qubit and entanglement.", 2, 8, ExampleCategory::Algorithms));
    v.push(entry("deutsch-jozsa", "Deutsch-Jozsa Algorithm", "Determines if function is constant or balanced in 1 query.", 2, 5, ExampleCategory::Algorithms));
    v.push(entry("bernstein-vazirani", "Bernstein-Vazirani", "Recovers hidden string in a single quantum query.", 4, 10, ExampleCategory::Algorithms));
    v.push(entry("grover-2qubit", "Grover's Algorithm", "Searches unsorted database with quadratic speedup.", 2, 11, ExampleCategory::Algorithms));
    v.push(entry("simon-algorithm", "Simon's Algorithm", "Finds hidden string exponentially faster than classical.", 4, 6, ExampleCategory::Algorithms));
    v.push(entry("qft-3qubit", "Quantum Fourier Transform", "Transforms to Fourier basis. Core of many quantum algorithms.", 3, 6, ExampleCategory::Algorithms));
    v.push(entry("bit-flip-code", "3-Qubit Bit-Flip Code", "Protects against X (bit-flip) errors using 3 qubits.", 3, 11, ExampleCategory::ErrorCorrection));
    v.push(entry("phase-flip-code", "3-Qubit Phase-Flip Code", "Protects against Z (phase-flip) errors in Hadamard basis.", 3, 14, ExampleCategory::ErrorCorrection));
    v.push(entry("shor-code", "Shor's 9-Qubit Code", "First code protecting against arbitrary single-qubit errors.", 9, 13, ExampleCategory::ErrorCorrection));
    assert(example_views(v@) =~= catalogue());
    v
}

/// `needle` occurs in `hay` starting at `i`.
pub open spec fn occurs_at(hay: Seq<char>, needle: Seq<char>, i: int) -> bool {
    0 <= i && i + needle.len() <= hay.len() && hay.subrange(i, i + needle.len()) == needle
}

/// `needle` occurs somewhere in `hay`.
pub open spec fn occurs_in(hay: Seq<char>, needle: Seq<char>) -> bool {
    exists|i: int| occurs_at(hay, needle, i)
}

/// The example is shown under the category filter and the search text:
/// same category (when one is chosen), and the lowercased search text in
/// the lowercased name or description (when there is search text).
pub open spec fn shown(e: ExampleView, category: Option<ExampleCategory>, query: Seq<char>) -> bool {
    &&& (category matches Some(c) ==> e.category == c)
    &&& (query.len() > 0 ==> occurs_in(lowercased(e.name), lowercased(query)) || occurs_in(lowercased(e.description), lowercased(query)))
}

/// Indices of the shown examples, in order.
pub open spec fn shown_indices(es: Seq<ExampleView>, category: Option<ExampleCategory>, query: Seq<char>) -> Seq<usize>
    decreases es.len(),
{
    if es.len() == 0 {
        Seq::empty()
    } else {
        let prev = shown_indices(es.drop_last(), category, query);
        if shown(es.last(), category, query) { prev.push((es.len() - 1) as usize) } else { prev }
    }
}

/// What `str::to_lowercase` gives for a text (Unicode lowercase mapping).
pub uninterp spec fn lowercased(s: Seq<char>) -> Seq<char>;

/// `str::to_lowercase`: the text in lowercase by the Unicode mapping, given
/// the name `lowercased`; the mapping tables are not restated.
#[verifier::external_body]
fn to_lowercase(s: &str) -> (r: String)
    ensures
        r@ == lowercased(s@),
{
    s.to_lowercase()
}

/// Whether `needle` occurs in `hay`.
fn contains_text(hay: &Vec<char>, needle: &Vec<char>) -> (b: bool)
    ensures
        b == occurs_in(hay@, needle@),
{
    let n = needle.len();
    let h = hay.len();
    if n > h {
        proof {
            assert forall|i: int| !occurs_at(hay@, needle@, i) by {}
        }
        return false;
    }
    let mut i: usize = 0;
    while i <= h - n
        invariant
            n == needle@.len(),
            h == hay@.len(),
            n <= h,
            i <= h - n + 1,
            forall|j: int| 0 <= j < i ==> !occurs_at(hay@, needle@, j),
        decreases h - n + 1 - i,
    {
        let mut k: usize = 0;
        while k < n && hay[i + k] == needle[k]
            invariant
                k <= n,
                i + n <= h,
                n == needle@.len(),
                h == hay@.len(),
                forall|m: int| 0 <= m < k ==> hay@[i + m] == needle@[m],
            decreases n - k,
        {
            k = k + 1;
        }
        if k == n {
            assert(hay@.subrange(i as int, i + n) =~= needle@);
            assert(occurs_at(hay@, needle@, i as int));
            return true;
        }
        proof {
            if occurs_at(hay@, needle@, i as int) {
                assert(hay@.subrange(i as int, i + n)[k as int] == needle@[k as int]);
            }
        }
        i = i + 1;
    }
    proof {
        assert forall|j: int| !occurs_at(hay@, needle@, j) by {
            if 0 <= j < i {} 
        }
    }
    false
}

/// The example browser's state.
pub struct ExampleLibrary {
    selected_category: Option<ExampleCategory>,
    search_query: String,
    examples: Vec<Example>,
    selected_example: Option<usize>,
    is_open: bool,
    examples_dir: String,
}

/// `dir` joined with path `file`: an absolute `file` (starting with `/`)
/// replaces `dir`; otherwise `file` alone when `dir` is empty, else the two
/// separated by a single `/`.
pub open spec fn joined(dir: Seq<char>, file: Seq<char>) -> Seq<char> {
    if file.len() > 0 && file[0] == '/' {
        file
    } else if dir.len() == 0 {
        file
    } else if dir.last() == '/' {
        dir + file
    } else {
        dir + seq!['/'] + file
    }
}

impl ExampleLibrary {
    /// The examples listed.
    pub closed spec fn examples_view(&self) -> Seq<ExampleView> {
        example_views(self.examples@)
    }

    /// Whether the browser is open.
    pub closed spec fn open_view(&self) -> bool {
        self.is_open
    }

    /// The category filter.
    pub closed spec fn category_view(&self) -> Option<ExampleCategory> {
        self.selected_category
    }

    /// The search text.
    pub closed spec fn query_view(&self) -> Seq<char> {
        self.search_query@
    }

    /// The selected example.
    pub closed spec fn selected_view(&self) -> Option<usize> {
        self.selected_example
    }

    /// The examples directory.
    pub closed spec fn dir_view(&self) -> Seq<char> {
        self.examples_dir@
    }

    /// `other` lists the same examples with the same filters, selection
    /// and directory as this browser.
    pub open spec fn same_contents(&self, other: &Self) -> bool {
        &&& other.examples_view() == self.examples_view()
        &&& other.category_view() == self.category_view()
        &&& other.query_view() == self.query_view()
        &&& other.selected_view() == self.selected_view()
        &&& other.dir_view() == self.dir_view()
    }

    /// Builds the complete list of example circuits with metadata.
    pub fn build_example_list() -> (v: Vec<Example>)
        ensures
            example_views(v@) == catalogue(),
    {
        example_list()
    }

    /// A closed browser over the full catalogue, examples read from `dir`.
    pub fn with_examples_dir(dir: String) -> (lib: ExampleLibrary)
        ensures
            lib.examples_view() == catalogue(),
            !lib.open_view(),
            lib.category_view() is None,
            lib.query_view() == Seq::<char>::empty(),
            lib.selected_view() is None,
            lib.dir_view() == dir@,
    {
        ExampleLibrary {
            selected_category: None,
            search_query: String::new(),
            examples: example_list(),
            selected_example: None,
            is_open: false,
            examples_dir: dir,
        }
    }

    /// Opens the browser.
    pub fn open(&mut self)
        ensures
            final(self).open_view(),
            old(self).same_contents(&*final(self)),
    {
        self.is_open = true;
    }

    /// Closes the browser.
    pub fn close(&mut self)
        ensures
            !final(self).open_view(),
            old(self).same_contents(&*final(self)),
    {
        self.is_open = false;
    }

    /// Whether the browser is open.
    pub fn is_open(&self) -> (b: bool)
        ensures
            b == self.open_view(),
    {
        self.is_open
    }

    /// Opens a closed browser and closes an open one.
    pub fn toggle(&mut self)
        ensures
            final(self).open_view() == !old(self).open_view(),
            old(self).same_contents(&*final(self)),
    {
        self.is_open = !self.is_open;
    }

    /// Chooses the category filter (`None` for all).
    pub fn set_category(&mut self, category: Option<ExampleCategory>)
        ensures
            final(self).category_view() == category,
            final(self).query_view() == old(self).query_view(),
            final(self).examples_view() == old(self).examples_view(),
            final(self).selected_view() == old(self).selected_view(),
            final(self).dir_view() == old(self).dir_view(),
            final(self).open_view() == old(self).open_view(),
    {
        self.selected_category = category;
    }

    /// The category filter.
    pub fn category(&self) -> (c: Option<ExampleCategory>)
        ensures
            c == self.category_view(),
    {
        self.selected_category
    }

    /// Replaces the search text.
    pub fn set_search_query(&mut self, query: String)
        ensures
            final(self).query_view() == query@,
            final(self).category_view() == old(self).category_view(),
            final(self).examples_view() == old(self).examples_view(),
            final(self).selected_view() == old(self).selected_view(),
            final(self).dir_view() == old(self).dir_view(),
            final(self).open_view() == old(self).open_view(),
    {
        self.search_query = query;
    }

    /// The search text.
    pub fn search_query(&self) -> (q: &str)
        ensures
            q@ == self.query_view(),
    {
        self.search_query.as_str()
    }

    /// Selects the example at `index`.
    pub fn select(&mut self, index: usize)
        ensures
            final(self).selected_view() == Some(index),
            final(self).examples_view() == old(self).examples_view(),
            final(self).category_view() == old(self).category_view(),
            final(self).query_view() == old(self).query_view(),
            final(self).dir_view() == old(self).dir_view(),
            final(self).open_view() == old(self).open_view(),
    {
        self.selected_example = Some(index);
    }

    /// The selected example, if any.
    pub fn selected(&self) -> (s: Option<usize>)
        ensures
            s == self.selected_view(),
    {
        self.selected_example
    }

    /// The example at `index`.
    pub fn example(&self, index: usize) -> (e: &Example)
        requires
            index < self.examples_view().len(),
        ensures
            e@ == self.examples_view()[index as int],
    {
        &self.examples[index]
    }

    /// The path of an example file: `<dir>/<file_name>.ket.json`.
    pub fn example_path(&self, file_name: &str) -> (p: String)
        ensures
            p@ == joined(self.dir_view(), file_name@ + ".ket.json"@),
    {
        let ghost full = file_name@ + ".ket.json"@;
        if file_name.unicode_len() > 0 && file_name.get_char(0) == '/' {
            let mut p = String::from_str(file_name);
            p.append(".ket.json");
            assert(full[0] == file_name@[0]);
            assert(p@ =~= joined(self.dir_view(), full));
            return p;
        }
        let mut p = self.examples_dir.clone();
        let n = p.as_str().unicode_len();
        if n > 0 && p.as_str().get_char(n - 1) != '/' {
            p.append("/");
            proof { reveal_strlit("/"); }
        }
        p.append(file_name);
        p.append(".ket.json");
        proof {
            reveal_strlit(".ket.json");
            if file_name@.len() == 0 {
                assert(full[0] == '.');
            } else {
                assert(full[0] == file_name@[0]);
            }
        }
        assert(p@ =~= joined(self.dir_view(), full));
        p
    }

    /// The file of the selected example, or the error text when none is
    /// selected.
    pub fn selected_path(&self) -> (r: Result<String, String>)
        requires
            self.selected_view() matches Some(i) ==> i < self.examples_view().len(),
        ensures
            (match self.selected_view() {
                Some(i) => r matches Ok(p) && p@ == joined(self.dir_view(), self.examples_view()[i as int].file_name + ".ket.json"@),
                None => r matches Err(m) && m@ == "No example selected"@,
            }),
    {
        match self.selected_example {
            Some(i) => Ok(self.example_path(self.examples[i].file_name.as_str())),
            None => Err(String::from_str("No example selected")),
        }
    }

    /// The examples the filters show, with their indices, in order.
    pub fn filtered_examples(&self) -> (r: Vec<(usize, &Example)>)
        ensures
            r@.len() == shown_indices(self.examples_view(), self.category_view(), self.query_view()).len(),
            forall|k: int| 0 <= k < r@.len() ==> (#[trigger] r@[k]).0 == shown_indices(self.examples_view(), self.category_view(), self.query_view())[k]
                && r@[k].0 < self.examples_view().len()
                && r@[k].1@ == self.examples_view()[r@[k].0 as int],
    {
        let ghost es = self.examples_view();
        let ghost q = self.query_view();
        let ghost cat = self.category_view();
        let nq = self.search_query.as_str().unicode_len();
        let query = chars_of_string(&to_lowercase(self.search_query.as_str()));
        let mut r: Vec<(usize, &Example)> = Vec::new();
        let mut i: usize = 0;
        while i < self.examples.len()
            invariant
                i <= self.examples@.len(),
                es == example_views(self.examples@),
                q == self.search_query@,
                cat == self.selected_category,
                nq == q.len(),
                query@ == lowercased(q),
                r@.len() == shown_indices(es.take(i as int), cat, q).len(),
                forall|k: int| 0 <= k < r@.len() ==> (#[trigger] r@[k]).0 == shown_indices(es.take(i as int), cat, q)[k]
                    && r@[k].0 < es.len()
                    && r@[k].1@ == es[r@[k].0 as int],
            decreases self.examples.len() - i,
        {
            assert(es.take(i as int + 1).drop_last() =~= es.take(i as int));
            let ex = &self.examples[i];
            assert(es.take(i as int + 1).last() == ex@);
            let mut keep = match self.selected_category {
                Some(c) => ex.category == c,
                None => true,
            };
            if keep && nq > 0 {
                let name = chars_of_string(&to_lowercase(ex.name.as_str()));
                let desc = chars_of_string(&to_lowercase(ex.description.as_str()));
                keep = contains_text(&name, &query) || contains_text(&desc, &query);
            }
            assert(keep == shown(ex@, cat, q));
            if keep {
                r.push((i, ex));
            }
            i = i + 1;
        }
        assert(es.take(self.examples@.len() as int) =~= es);
        r
    }

    /// Number of examples in the library.
    pub fn example_count(&self) -> (n: usize)
        ensures
            n == self.examples_view().len(),
    {
        self.examples.len()
    }

    /// Number of examples in `category`.
    pub fn count_by_category(&self, category: ExampleCategory) -> (n: usize)
        ensures
            n == in_category(self.examples_view(), category),
    {
        let ghost es = self.examples_view();
        let mut n: usize = 0;
        let mut i: usize = 0;
        while i < self.examples.len()
            invariant
                i <= self.examples@.len(),
                es == example_views(self.examples@),
                n == in_category(es.take(i as int), category),
                n <= i,
            decreases self.examples.len() - i,
        {
            assert(es.take(i as int + 1).drop_last() =~= es.take(i as int));
            if self.examples[i].category == category {
                n = n + 1;
            }
            i = i + 1;
        }
        assert(es.take(self.examples@.len() as int) =~= es);
        n
    }
}

/// How many of the examples are in `category`.
pub open spec fn in_category(es: Seq<ExampleView>, category: ExampleCategory) -> nat
    decreases es.len(),
{
    if es.len() == 0 {
        0
    } else {
        in_category(es.drop_last(), category) + if es.last().category == category { 1nat } else { 0nat }
    }
}

impl Default for ExampleLibrary {
    fn default() -> (lib: Self)
        ensures
            lib.examples_view() == catalogue(),
            !lib.open_view(),
            lib.category_view() is None,
            lib.query_view() == Seq::<char>::empty(),
            lib.selected_view() is None,
            lib.dir_view() == "examples"@,
    {
        ExampleLibrary::with_examples_dir(String::from_str("examples"))
    }
}

fn chars_of_string(s: &String) -> (v: Vec<char>)
    ensures
        v@ == s@,
{
    crate::text::chars_of(s.as_str())
}

/// The message for an example that could not be loaded: its name and the
/// reason.
pub fn load_error_message(name: &str, reason: &str) -> (s: String)
    ensures
        s@ == "Failed to load '"@ + name@ + "': "@ + reason@,
{
    let mut s = String::from_str("Failed to load '");
    s.append(name);
    s.append("': ");
    s.append(reason);
    s
}

} // verus!
