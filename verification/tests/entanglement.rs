use ketgrid::entanglement::cluster_qubits;
use ketgrid::view::entanglement_wire_colors;

#[test]
fn clusters_without_links_are_single_qubits() {
    let r = cluster_qubits(3, &vec![]);
    assert_eq!(r.clusters, vec![vec![0], vec![1], vec![2]]);
    assert_eq!(r.qubit_cluster, vec![0, 1, 2]);
}

#[test]
fn clusters_bell_pair() {
    let r = cluster_qubits(2, &vec![(0, 1)]);
    assert_eq!(r.clusters, vec![vec![0, 1]]);
    assert_eq!(r.qubit_cluster, vec![0, 0]);
}

#[test]
fn clusters_ghz_state() {
    let r = cluster_qubits(3, &vec![(0, 1), (0, 2), (1, 2)]);
    assert_eq!(r.clusters, vec![vec![0, 1, 2]]);
    assert_eq!(r.qubit_cluster, vec![0, 0, 0]);
}

#[test]
fn clusters_partial_entanglement() {
    let r = cluster_qubits(4, &vec![(1, 3)]);
    assert_eq!(r.clusters, vec![vec![0], vec![1, 3], vec![2]]);
    assert_eq!(r.qubit_cluster, vec![0, 1, 2, 1]);
}

#[test]
fn clusters_join_through_chains() {
    let r = cluster_qubits(5, &vec![(2, 3), (3, 4), (0, 4)]);
    assert_eq!(r.clusters, vec![vec![0, 2, 3, 4], vec![1]]);
    assert_eq!(r.qubit_cluster, vec![0, 1, 0, 0, 0]);
}

#[test]
fn clusters_of_no_qubits() {
    let r = cluster_qubits(0, &vec![]);
    assert!(r.clusters.is_empty());
    assert!(r.qubit_cluster.is_empty());
}

#[test]
fn cluster_colors_for_entangled_wires() {
    let r = cluster_qubits(4, &vec![(1, 3)]);
    let colors = entanglement_wire_colors(4, &r.clusters, 6);
    assert_eq!(colors, vec![None, Some(0), None, Some(0)]);
}
