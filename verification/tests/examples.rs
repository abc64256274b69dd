use ketgrid::examples::{Example, ExampleCategory, ExampleLibrary};

#[test]
fn test_example_library_default() {
    let lib = ExampleLibrary::default();
    assert!(!lib.is_open());
    assert_eq!(lib.example_count(), 21);
}

#[test]
fn test_category_counts() {
    let lib = ExampleLibrary::default();
    assert_eq!(lib.count_by_category(ExampleCategory::Fundamentals), 9);
    assert_eq!(lib.count_by_category(ExampleCategory::Algorithms), 9);
    assert_eq!(lib.count_by_category(ExampleCategory::ErrorCorrection), 3);
}

#[test]
fn test_category_display_names() {
    assert_eq!(ExampleCategory::Fundamentals.display_name(), "Fundamentals");
    assert_eq!(ExampleCategory::Algorithms.display_name(), "Algorithms");
    assert_eq!(ExampleCategory::ErrorCorrection.display_name(), "Error-Correction");
}

#[test]
fn test_example_open_close() {
    let mut lib = ExampleLibrary::default();
    assert!(!lib.is_open());
    lib.open();
    assert!(lib.is_open());
    lib.close();
    assert!(!lib.is_open());
    lib.toggle();
    assert!(lib.is_open());
}

#[test]
fn test_preview_text() {
    let example = Example {
        file_name: "test".to_string(),
        name: "Test".to_string(),
        description: "Test example".to_string(),
        qubit_count: 3,
        gate_count: 5,
        category: ExampleCategory::Fundamentals,
    };
    assert_eq!(example.preview_text(), "3 qubits, 5 gates");
}

#[test]
fn example_preview_singular_counts() {
    let example = Example {
        file_name: "h".to_string(),
        name: "H".to_string(),
        description: "One".to_string(),
        qubit_count: 1,
        gate_count: 1,
        category: ExampleCategory::Fundamentals,
    };
    assert_eq!(example.preview_text(), "1 qubits, 1 gates");
}

#[test]
fn example_categories_in_order() {
    assert_eq!(
        ExampleCategory::all(),
        vec![ExampleCategory::Fundamentals, ExampleCategory::Algorithms, ExampleCategory::ErrorCorrection]
    );
}

#[test]
fn example_toggle_twice_closes() {
    let mut lib = ExampleLibrary::default();
    lib.toggle();
    lib.toggle();
    assert!(!lib.is_open());
}

#[test]
fn example_filter_by_category() {
    let mut lib = ExampleLibrary::default();
    lib.set_category(Some(ExampleCategory::ErrorCorrection));
    let shown: Vec<usize> = lib.filtered_examples().iter().map(|(i, _)| *i).collect();
    assert_eq!(shown, vec![18, 19, 20]);
    assert_eq!(lib.category(), Some(ExampleCategory::ErrorCorrection));
    lib.set_category(None);
    assert_eq!(lib.filtered_examples().len(), 21);
}

#[test]
fn example_filter_by_query_ignores_case() {
    let mut lib = ExampleLibrary::default();
    lib.set_search_query("BELL".to_string());
    let shown: Vec<String> = lib.filtered_examples().iter().map(|(_, e)| e.file_name.clone()).collect();
    assert_eq!(shown, vec!["bell".to_string()]);
    assert_eq!(lib.search_query(), "BELL");

    // The description is searched too.
    lib.set_search_query("entangle".to_string());
    let shown: Vec<String> = lib.filtered_examples().iter().map(|(_, e)| e.file_name.clone()).collect();
    assert_eq!(
        shown,
        vec!["bell".to_string(), "ghz".to_string(), "teleportation".to_string(), "superdense-coding".to_string()]
    );
}

#[test]
fn example_filter_by_category_and_query() {
    let mut lib = ExampleLibrary::default();
    lib.set_category(Some(ExampleCategory::Fundamentals));
    lib.set_search_query("phase".to_string());
    let shown: Vec<usize> = lib.filtered_examples().iter().map(|(i, _)| *i).collect();
    assert_eq!(shown, vec![2, 3, 4, 5]);
    lib.set_search_query("zzz-none".to_string());
    assert!(lib.filtered_examples().is_empty());
}

#[test]
fn example_selection_and_lookup() {
    let mut lib = ExampleLibrary::default();
    assert_eq!(lib.selected(), None);
    lib.select(9);
    assert_eq!(lib.selected(), Some(9));
    assert_eq!(lib.example(9).name, "Bell State");
    assert_eq!(lib.example(20).file_name, "shor-code");
    assert_eq!(lib.example(20).qubit_count, 9);
}

#[test]
fn example_paths() {
    let lib = ExampleLibrary::default();
    assert_eq!(lib.example_path("bell"), "examples/bell.ket.json");
    let lib = ExampleLibrary::with_examples_dir("/data/circuits/".to_string());
    assert_eq!(lib.example_path("ghz"), "/data/circuits/ghz.ket.json");
    let lib = ExampleLibrary::with_examples_dir("lib".to_string());
    assert_eq!(lib.example_path("swap"), "lib/swap.ket.json");
    assert_eq!(lib.example_path("/x"), "/x.ket.json");
    assert_eq!(lib.example_count(), 21);
}

#[test]
fn example_list_builds_catalogue() {
    let list = ExampleLibrary::build_example_list();
    assert_eq!(list.len(), 21);
    assert_eq!(list[0].file_name, "hadamard");
    assert_eq!(list[0].preview_text(), "1 qubits, 1 gates");
    assert_eq!(list[15].name, "Grover's Algorithm");
}

#[test]
fn example_selected_path_and_errors() {
    let mut lib = ExampleLibrary::default();
    assert_eq!(lib.selected_path(), Err("No example selected".to_string()));
    lib.select(10);
    assert_eq!(lib.selected_path(), Ok("examples/ghz.ket.json".to_string()));
    assert_eq!(
        ketgrid::examples::load_error_message("GHZ State", "IO error: not found"),
        "Failed to load 'GHZ State': IO error: not found"
    );
}

#[test]
fn toggle_twice_gives_the_same_browser() {
    let mut lib = ExampleLibrary::with_examples_dir("lib".to_string());
    lib.set_search_query("bell".to_string());
    lib.select(3);
    lib.toggle();
    assert!(lib.is_open());
    lib.toggle();
    assert!(!lib.is_open());
    assert_eq!(lib.search_query(), "bell");
    assert_eq!(lib.selected(), Some(3));
    assert_eq!(lib.example_path("swap"), "lib/swap.ket.json");
}
