use std::collections::HashMap;

use aigerox::toposort::toposort_layers;

/// Layers a graph over names: names get ids in their sorted order, so the
/// ascending id order of each layer is the sorted order of its names.
fn layers_of_names(graph: &HashMap<&'static str, Vec<&'static str>>) -> Option<Vec<Vec<&'static str>>> {
    let mut names: Vec<&'static str> = Vec::new();
    for (k, deps) in graph {
        names.push(k);
        names.extend(deps.iter().copied());
    }
    names.sort();
    names.dedup();
    let id = |n: &str| names.iter().position(|m| *m == n).unwrap() as u32;
    let mut ids: HashMap<u32, Vec<u32>> = HashMap::new();
    for (k, deps) in graph {
        ids.insert(id(k), deps.iter().map(|d| id(d)).collect());
    }
    toposort_layers(&ids).map(|layers| {
        layers
            .into_iter()
            .map(|layer| layer.into_iter().map(|i| names[i as usize]).collect())
            .collect()
    })
}

#[test]
fn test_example() {
    let mut graph = HashMap::new();
    graph.insert(3, vec![10, 8]);
    graph.insert(5, vec![11]);
    graph.insert(7, vec![8, 11]);
    graph.insert(8, vec![9]);
    graph.insert(11, vec![9, 2, 10]);

    let layers = toposort_layers(&graph).unwrap();
    assert_eq!(layers, vec![vec![3, 5, 7], vec![8, 11], vec![2, 9, 10]]);
}

#[test]
fn test_linear_graph() {
    let mut graph = HashMap::new();
    graph.insert("A", vec!["B"]);
    graph.insert("B", vec!["C"]);
    graph.insert("C", vec!["D"]);

    let layers = layers_of_names(&graph).unwrap();
    assert_eq!(layers, vec![vec!["A"], vec!["B"], vec!["C"], vec!["D"]]);
}

#[test]
fn test_multiple_nodes_in_layer() {
    let mut graph = HashMap::new();
    graph.insert("A", vec!["B", "C"]);
    graph.insert("B", vec!["D"]);
    graph.insert("C", vec!["D"]);

    let layers = layers_of_names(&graph).unwrap();
    assert_eq!(layers, vec![vec!["A"], vec!["B", "C"], vec!["D"]]);
}

#[test]
fn test_complex_dag() {
    let mut graph = HashMap::new();
    graph.insert(1, vec![2, 3]);
    graph.insert(2, vec![4]);
    graph.insert(3, vec![4]);
    graph.insert(5, vec![6]);

    let layers = toposort_layers(&graph).unwrap();
    assert_eq!(layers, vec![vec![1, 5], vec![2, 3, 6], vec![4]]);
}

#[test]
fn test_single_node() {
    let graph = HashMap::from([(1, vec![])]);
    let layers = toposort_layers(&graph).unwrap();
    assert_eq!(layers, vec![vec![1]]);
}

#[test]
fn test_node_not_in_keys() {
    let mut graph = HashMap::new();
    graph.insert("A", vec!["B"]);

    let layers = layers_of_names(&graph).unwrap();
    assert_eq!(layers, vec![vec!["A"], vec!["B"]]);
}

#[test]
fn test_empty_graph() {
    let graph: HashMap<u32, Vec<u32>> = HashMap::new();
    let layers = toposort_layers(&graph).unwrap();
    assert!(layers.is_empty());
}

#[test]
fn test_disconnected_components() {
    let mut graph = HashMap::new();
    graph.insert("A", vec!["B"]);
    graph.insert("C", vec!["D"]);

    let layers = layers_of_names(&graph).unwrap();
    assert_eq!(layers, vec![vec!["A", "C"], vec!["B", "D"]]);
}

#[test]
fn cyclic_graph_has_no_layers() {
    let mut graph = HashMap::new();
    graph.insert("A", vec!["B"]);
    graph.insert("B", vec!["C"]);
    graph.insert("C", vec!["A"]);

    assert_eq!(layers_of_names(&graph), None);
}

#[test]
fn two_node_cycle_is_rejected() {
    let graph = HashMap::from([(1u32, vec![2u32]), (2, vec![1])]);
    assert_eq!(toposort_layers(&graph), None);
}

#[test]
fn self_loop_is_rejected() {
    let graph = HashMap::from([(4u32, vec![4u32])]);
    assert_eq!(toposort_layers(&graph), None);
}

#[test]
fn repeated_dependency_counts_once() {
    let graph = HashMap::from([(1u32, vec![2u32, 2, 2]), (2, vec![])]);
    assert_eq!(toposort_layers(&graph).unwrap(), vec![vec![1], vec![2]]);
}

#[test]
fn layers_cover_every_node_once_after_its_predecessors() {
    let graph = HashMap::from([
        (10u32, vec![20u32, 30]),
        (20, vec![40]),
        (30, vec![40, 50]),
        (60, vec![50]),
    ]);
    let layers = toposort_layers(&graph).unwrap();
    let mut seen: Vec<u32> = layers.concat();
    seen.sort();
    assert_eq!(seen, vec![10, 20, 30, 40, 50, 60]);
    let layer_of = |x: u32| layers.iter().position(|l| l.contains(&x)).unwrap();
    for (u, vs) in &graph {
        for v in vs {
            assert!(layer_of(*u) < layer_of(*v));
        }
    }
}

#[test]
fn large_ids_are_kept() {
    let graph = HashMap::from([(u32::MAX, vec![0u32]), (7, vec![u32::MAX])]);
    assert_eq!(toposort_layers(&graph).unwrap(), vec![vec![7], vec![u32::MAX], vec![0]]);
}
