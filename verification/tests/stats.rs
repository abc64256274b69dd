use ketgrid::stats::{memory_warning, MemoryWarning};
use ketgrid::circuit::Circuit;
use ketgrid::gate::GateType;
use ketgrid::stats::{estimate_state_vector_memory_bytes, format_memory, CircuitStats};

/// The two-decimal angle texts of a circuit's gates, one per gate.
fn angle_texts(circuit: &Circuit) -> Vec<String> {
    circuit
        .gates
        .iter()
        .map(|g| match g.gate {
            GateType::Rx(b) | GateType::Ry(b) | GateType::Rz(b) => format!("{:.2}", f64::from_bits(b)),
            _ => String::new(),
        })
        .collect()
}

fn stats_of(circuit: &Circuit) -> CircuitStats {
    CircuitStats::from_circuit(circuit, &angle_texts(circuit))
}

/// The same formatting done with floating point.
fn float_format(bytes: usize) -> String {
    if bytes >= 1024 * 1024 * 1024 {
        format!("{:.1} GB", bytes as f64 / (1024.0 * 1024.0 * 1024.0))
    } else if bytes >= 1024 * 1024 {
        format!("{:.1} MB", bytes as f64 / (1024.0 * 1024.0))
    } else if bytes >= 1024 {
        format!("{:.0} KB", bytes as f64 / 1024.0)
    } else {
        format!("{} B", bytes)
    }
}

#[test]
fn test_memory_estimate_small_circuits() {
    assert_eq!(estimate_state_vector_memory_bytes(1), 32);
    assert_eq!(estimate_state_vector_memory_bytes(2), 64);
    assert_eq!(estimate_state_vector_memory_bytes(3), 128);
}

#[test]
fn test_memory_estimate_12_qubits() {
    let bytes = estimate_state_vector_memory_bytes(12);
    assert_eq!(bytes, 65536);
    assert_eq!(format_memory(bytes), "64 KB");
}

#[test]
fn test_format_memory_units() {
    assert_eq!(format_memory(100), "100 B");
    assert_eq!(format_memory(1024), "1 KB");
    assert_eq!(format_memory(1536), "2 KB");
    assert_eq!(format_memory(1024 * 1024), "1.0 MB");
    assert_eq!(format_memory(5 * 1024 * 1024), "5.0 MB");
    assert_eq!(format_memory(1024 * 1024 * 1024), "1.0 GB");
    assert_eq!(format_memory(16 * 1024 * 1024 * 1024), "16.0 GB");
}

#[test]
fn test_memory_estimate_overflow_protection() {
    let bytes = estimate_state_vector_memory_bytes(64);
    assert_eq!(bytes, usize::MAX);
}

#[test]
fn test_memory_formatting() {
    assert_eq!(format_memory(100), "100 B");
    assert_eq!(format_memory(1024), "1 KB");
    assert_eq!(format_memory(1536), "2 KB");
    assert_eq!(format_memory(1024 * 1024), "1.0 MB");
    assert_eq!(format_memory(1024 * 1024 * 1024), "1.0 GB");
}

#[test]
fn memory_estimate_large_counts() {
    assert_eq!(estimate_state_vector_memory_bytes(0), 16);
    assert_eq!(estimate_state_vector_memory_bytes(30), 1usize << 34);
    assert_eq!(estimate_state_vector_memory_bytes(59), 1usize << 63);
    assert_eq!(estimate_state_vector_memory_bytes(100), usize::MAX);
}

#[test]
fn memory_format_edges() {
    assert_eq!(format_memory(0), "0 B");
    assert_eq!(format_memory(1023), "1023 B");
    // Ties round to even, as the float formatting does.
    assert_eq!(format_memory(2560), "2 KB");
    assert_eq!(format_memory(3584), "4 KB");
    assert_eq!(format_memory(1024 * 1024 - 1), "1024 KB");
    assert_eq!(format_memory(1024 * 1024 * 1024 - 1), "1024.0 MB");
    assert_eq!(format_memory(usize::MAX), "17179869184.0 GB");
}

#[test]
fn memory_format_matches_float_formatting() {
    let mut samples: Vec<usize> = Vec::new();
    for b in 0..5000usize {
        samples.push(b);
    }
    for k in 0..4000usize {
        samples.push(1024 * 1024 + k * 52429);
        samples.push(1024 * 1024 * 1024 + k * 53687091);
        samples.push((1024 * 1024) * (k + 1) / 20);
        samples.push((1024 * 1024 * 1024) / 20 * (k + 1));
        samples.push(k * 512 + 1024);
    }
    let mut x: u64 = 0x9E3779B97F4A7C15;
    for _ in 0..20000 {
        x ^= x << 13;
        x ^= x >> 7;
        x ^= x << 17;
        samples.push((x >> (x % 40)) as usize);
    }
    for s in [usize::MAX, usize::MAX - 1, usize::MAX / 2, 1usize << 62, (1usize << 53) + 1] {
        samples.push(s);
    }
    for b in samples {
        assert_eq!(format_memory(b), float_format(b), "bytes = {}", b);
    }
}

#[test]
fn test_empty_circuit_stats() {
    let circuit = Circuit::new(2);
    let stats = stats_of(&circuit);

    assert_eq!(stats.num_qubits, 2);
    assert_eq!(stats.total_gates, 0);
    assert_eq!(stats.num_measurements, 0);
    assert_eq!(stats.depth, 0);
    assert!(stats.gate_counts.is_empty());
    assert_eq!(stats.memory_bytes, 64);
}

#[test]
fn test_grover_2qubit_stats() {
    let mut circuit = Circuit::new(2);
    circuit.add_gate(GateType::H, vec![0], vec![], 0).unwrap();
    circuit.add_gate(GateType::H, vec![1], vec![], 0).unwrap();
    circuit.add_gate(GateType::Cnot, vec![1], vec![0], 1).unwrap();
    circuit.add_gate(GateType::H, vec![0], vec![], 2).unwrap();
    circuit.add_gate(GateType::H, vec![1], vec![], 2).unwrap();
    circuit.add_gate(GateType::X, vec![0], vec![], 3).unwrap();
    circuit.add_gate(GateType::X, vec![1], vec![], 3).unwrap();
    circuit.add_gate(GateType::Cnot, vec![1], vec![0], 4).unwrap();
    circuit.add_gate(GateType::X, vec![0], vec![], 5).unwrap();
    circuit.add_gate(GateType::X, vec![1], vec![], 5).unwrap();
    circuit.add_gate(GateType::H, vec![0], vec![], 6).unwrap();
    circuit.add_gate(GateType::H, vec![1], vec![], 6).unwrap();

    let stats = stats_of(&circuit);

    assert_eq!(stats.num_qubits, 2);
    assert_eq!(stats.total_gates, 12);
    assert_eq!(stats.depth, 6);

    assert_eq!(*stats.gate_counts.get("H").unwrap_or(&0), 6);
    assert_eq!(*stats.gate_counts.get("X").unwrap_or(&0), 4);
    assert_eq!(*stats.gate_counts.get("C+").unwrap_or(&0), 2);
}

#[test]
fn test_circuit_with_measurements() {
    let mut circuit = Circuit::new(2);
    circuit.add_gate(GateType::H, vec![0], vec![], 0).unwrap();
    circuit.add_measurement(0, 1).unwrap();
    circuit.add_measurement(1, 1).unwrap();

    let stats = stats_of(&circuit);

    assert_eq!(stats.total_gates, 1);
    assert_eq!(stats.num_measurements, 2);
    assert_eq!(stats.depth, 1);
}

#[test]
fn test_hardware_time_estimate() {
    let mut circuit = Circuit::new(2);
    circuit.add_gate(GateType::H, vec![0], vec![], 0).unwrap();
    circuit.add_gate(GateType::X, vec![0], vec![], 1).unwrap();
    circuit.add_gate(GateType::Cnot, vec![1], vec![0], 2).unwrap();
    circuit.add_measurement(0, 3).unwrap();
    circuit.add_measurement(1, 3).unwrap();

    let stats = stats_of(&circuit);

    // 2 * 50ns + 1 * 500ns + 2 * 1000ns = 2600ns = 2.6 µs
    let us = stats.hardware_time_estimate_ns as f64 / 1000.0;
    assert!(us > 2.0);
    assert!(us < 3.0);
    assert_eq!(stats.hardware_time_estimate_ns, 2600);
}

#[test]
fn stats_gate_counts_by_display_name() {
    let mut circuit = Circuit::new(3);
    circuit.add_gate(GateType::Rx(std::f64::consts::PI.to_bits()), vec![0], vec![], 0).unwrap();
    circuit.add_gate(GateType::Rx(std::f64::consts::PI.to_bits()), vec![1], vec![], 0).unwrap();
    circuit.add_gate(GateType::Rz(1.0f64.to_bits()), vec![2], vec![], 0).unwrap();
    circuit.add_gate(GateType::Toffoli, vec![2], vec![0, 1], 1).unwrap();
    circuit.add_gate(GateType::Swap, vec![0, 1], vec![], 2).unwrap();
    circuit.add_gate(GateType::Barrier, vec![2], vec![], 2).unwrap();

    let stats = stats_of(&circuit);
    assert_eq!(stats.gate_counts.len(), 5);
    assert_eq!(*stats.gate_counts.get("Rx(3.14)").unwrap(), 2);
    assert_eq!(*stats.gate_counts.get("Rz(1.00)").unwrap(), 1);
    assert_eq!(*stats.gate_counts.get("Toffoli").unwrap(), 1);
    assert_eq!(*stats.gate_counts.get("Swap").unwrap(), 1);
    assert_eq!(*stats.gate_counts.get("|").unwrap(), 1);
    assert!(stats.gate_counts.get("H").is_none());
    assert_eq!(stats.depth, 2);
    assert_eq!(stats.memory_bytes, 128);
    // 3 rotations (100 ns), Toffoli (2000 ns), swap (500 ns), barrier (0 ns).
    assert_eq!(stats.hardware_time_estimate_ns, 3 * 100 + 2000 + 500);
}

#[test]
fn stats_counts_listed_for_display() {
    let mut circuit = Circuit::new(3);
    let names = [GateType::X, GateType::H, GateType::Z, GateType::H, GateType::X, GateType::Barrier, GateType::Cnot];
    for (col, g) in names.iter().enumerate() {
        match g {
            GateType::Cnot => circuit.add_gate(g.clone(), vec![1], vec![0], col).unwrap(),
            _ => circuit.add_gate(g.clone(), vec![col % 3], vec![], col).unwrap(),
        }
    }
    circuit.add_gate(GateType::Custom("Zeta".to_string()), vec![2], vec![], 9).unwrap();
    circuit.add_gate(GateType::Custom("Äther".to_string()), vec![2], vec![], 10).unwrap();
    let stats = stats_of(&circuit);
    let shown: Vec<(String, usize)> = stats.gate_counts.for_display().into_iter().map(|c| (c.name, c.count)).collect();
    assert_eq!(
        shown,
        vec![
            ("H".to_string(), 2),
            ("X".to_string(), 2),
            ("C+".to_string(), 1),
            ("Z".to_string(), 1),
            ("Zeta".to_string(), 1),
            ("|".to_string(), 1),
            ("Äther".to_string(), 1),
        ]
    );
    // The same order as sorting the entries with `String`'s ordering.
    let mut expected: Vec<(String, usize)> =
        stats.gate_counts.entries().iter().map(|c| (c.name.clone(), c.count)).collect();
    expected.sort_by(|a, b| b.1.cmp(&a.1).then_with(|| a.0.cmp(&b.0)));
    assert_eq!(shown, expected);
}

#[test]
fn memory_warning_thresholds() {
    assert_eq!(memory_warning(95, Some(100), 3), MemoryWarning::OverAvailable);
    assert_eq!(memory_warning(90, Some(100), 3), MemoryWarning::Fine);
    assert_eq!(memory_warning(0, Some(100), 40), MemoryWarning::Fine);
    assert_eq!(memory_warning(1 << 20, None, 31), MemoryWarning::ManyQubits);
    assert_eq!(memory_warning(1 << 20, None, 30), MemoryWarning::Fine);
}
