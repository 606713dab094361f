use ascii_dag::generic::{
    compute_ancestors_fn, compute_blast_radius_fn, compute_descendants_fn, detect_cycle,
    detect_cycle_fn, find_leaves_fn, find_roots_fn, topological_sort_fn, CycleDetectable,
    ImpactAnalyzable, RootFindable, TopologicallySortable,
};
use ascii_dag::metrics::GraphMetrics;
use std::collections::BTreeMap;

#[test]
fn test_cycle_detection_with_closure() {
    let get_deps = |id: &usize| -> Vec<usize> {
        match id {
            1 => vec![2],
            2 => vec![3],
            3 => vec![1],
            _ => vec![],
        }
    };

    let all_ids = vec![1, 2, 3];
    let cycle = detect_cycle_fn(&all_ids, get_deps);
    assert!(cycle.is_some());

    let cycle_path = cycle.unwrap();
    assert!(!cycle_path.is_empty());
}

#[test]
fn test_no_cycle_with_closure() {
    let get_deps = |id: &usize| -> Vec<usize> {
        match id {
            1 => vec![2],
            2 => vec![3],
            3 => vec![],
            _ => vec![],
        }
    };

    let all_ids = vec![1, 2, 3];
    assert!(detect_cycle_fn(&all_ids, get_deps).is_none());
}

#[test]
fn test_complex_dependency_graph() {
    let get_deps = |id: &usize| -> Vec<usize> {
        match id {
            1 => vec![2, 3],
            2 => vec![4],
            3 => vec![4],
            4 => vec![],
            _ => vec![],
        }
    };

    let all_ids = vec![1, 2, 3, 4];
    assert!(detect_cycle_fn(&all_ids, get_deps).is_none());
}

#[test]
fn test_self_referential_cycle() {
    let get_deps = |id: &usize| -> Vec<usize> {
        match id {
            1 => vec![1],
            _ => vec![],
        }
    };

    let all_ids = vec![1];
    assert!(detect_cycle_fn(&all_ids, get_deps).is_some());
}

#[derive(Clone, Debug, PartialEq, Eq, Hash)]
struct ErrorNode {
    id: usize,
    message: &'static str,
    caused_by: Vec<usize>,
}

impl CycleDetectable for ErrorNode {
    type Id = usize;

    fn id(&self) -> Self::Id {
        self.id
    }

    fn dependencies(&self) -> Vec<Self::Id> {
        self.caused_by.clone()
    }
}

#[test]
fn test_trait_based_cycle_detection() {
    let errors = vec![
        ErrorNode {
            id: 1,
            message: "Network error",
            caused_by: vec![2],
        },
        ErrorNode {
            id: 2,
            message: "Connection failed",
            caused_by: vec![3],
        },
        ErrorNode {
            id: 3,
            message: "Retry limit",
            caused_by: vec![1],
        },
    ];

    let cycle = detect_cycle(&errors);
    assert!(cycle.is_some());
    assert!(errors.iter().all(|e| !e.message.is_empty()));
}

#[test]
fn test_trait_based_no_cycle() {
    let errors = vec![
        ErrorNode {
            id: 1,
            message: "File not found",
            caused_by: vec![2],
        },
        ErrorNode {
            id: 2,
            message: "Permission denied",
            caused_by: vec![],
        },
    ];

    let cycle = detect_cycle(&errors);
    assert!(cycle.is_none());
}

#[test]
fn test_find_roots_simple() {
    let get_deps = |&id: &usize| match id {
        1 => vec![],
        2 => vec![1],
        3 => vec![1],
        _ => vec![],
    };

    let items = [1, 2, 3];
    let roots = find_roots_fn(&items, get_deps);
    assert_eq!(roots, vec![1]);
}

#[test]
fn test_find_roots_multiple() {
    let get_deps = |&id: &usize| match id {
        1 => vec![],
        2 => vec![],
        3 => vec![1, 2],
        _ => vec![],
    };

    let items = [1, 2, 3];
    let roots = find_roots_fn(&items, get_deps);
    assert_eq!(roots.len(), 2);
    assert!(roots.contains(&1));
    assert!(roots.contains(&2));
}

#[test]
fn test_find_leaves_simple() {
    let get_deps = |&id: &usize| match id {
        1 => vec![],
        2 => vec![1],
        3 => vec![2],
        _ => vec![],
    };

    let items = [1, 2, 3];
    let leaves = find_leaves_fn(&items, get_deps);
    assert_eq!(leaves, vec![3]);
}

#[test]
fn test_find_leaves_multiple() {
    let get_deps = |&id: &usize| match id {
        1 => vec![],
        2 => vec![1],
        3 => vec![1],
        _ => vec![],
    };

    let items = [1, 2, 3];
    let leaves = find_leaves_fn(&items, get_deps);
    assert_eq!(leaves.len(), 2);
    assert!(leaves.contains(&2));
    assert!(leaves.contains(&3));
}

struct RootGraph {
    deps: BTreeMap<usize, Vec<usize>>,
}

impl RootFindable for RootGraph {
    type Id = usize;

    fn get_all_ids(&self) -> Vec<usize> {
        self.deps.keys().copied().collect()
    }

    fn get_dependencies(&self, id: &usize) -> Vec<usize> {
        self.deps.get(id).cloned().unwrap_or_default()
    }
}

#[test]
fn test_trait_based_root_finding() {
    let mut deps = BTreeMap::new();
    deps.insert(1, vec![]);
    deps.insert(2, vec![1]);
    deps.insert(3, vec![1]);

    let graph = RootGraph { deps };

    assert_eq!(graph.find_roots(), vec![1]);
    assert!(graph.is_single_rooted());
    assert!(graph.is_tree_like());
    assert_eq!(graph.root_count(), 1);
    assert_eq!(graph.leaf_count(), 2);
}

#[test]
fn roots_test_empty_graph() {
    let get_deps = |_: &usize| vec![];
    let items: [usize; 0] = [];
    let roots = find_roots_fn(&items, get_deps);
    assert_eq!(roots.len(), 0);
}

#[test]
fn test_all_roots() {
    let get_deps = |_: &usize| vec![];
    let items = [1, 2, 3, 4, 5];
    let roots = find_roots_fn(&items, get_deps);
    assert_eq!(roots.len(), 5);
}

#[test]
fn generic_test_simple_chain() {
    let get_deps = |&id: &usize| match id {
        1 => vec![],
        2 => vec![1],
        3 => vec![2],
        _ => vec![],
    };

    let items = [3, 1, 2];
    let sorted = topological_sort_fn(&items, get_deps).unwrap();
    assert_eq!(sorted, vec![1, 2, 3]);
}

#[test]
fn test_diamond_dependency() {
    let get_deps = |&id: &usize| match id {
        1 => vec![],
        2 => vec![1],
        3 => vec![1],
        4 => vec![2, 3],
        _ => vec![],
    };

    let items = [4, 3, 2, 1];
    let sorted = topological_sort_fn(&items, get_deps).unwrap();

    assert_eq!(sorted[0], 1);
    assert_eq!(sorted[3], 4);
    assert!(sorted[1] == 2 || sorted[1] == 3);
}

#[test]
fn generic_test_cycle_detection() {
    let get_deps = |&id: &usize| match id {
        1 => vec![2],
        2 => vec![3],
        3 => vec![1],
        _ => vec![],
    };

    let items = [1, 2, 3];
    let result = topological_sort_fn(&items, get_deps);
    assert!(result.is_err());
}

#[test]
fn generic_test_multiple_roots() {
    let get_deps = |&id: &usize| match id {
        1 => vec![],
        2 => vec![],
        3 => vec![1, 2],
        _ => vec![],
    };

    let items = [3, 2, 1];
    let sorted = topological_sort_fn(&items, get_deps).unwrap();

    assert!(sorted.iter().position(|&x| x == 1).unwrap() < sorted.iter().position(|&x| x == 3).unwrap());
    assert!(sorted.iter().position(|&x| x == 2).unwrap() < sorted.iter().position(|&x| x == 3).unwrap());
}

struct SortGraph {
    deps: BTreeMap<usize, Vec<usize>>,
}

impl TopologicallySortable for SortGraph {
    type Id = usize;

    fn get_all_ids(&self) -> Vec<usize> {
        self.deps.keys().copied().collect()
    }

    fn get_dependencies(&self, id: &usize) -> Vec<usize> {
        self.deps.get(id).cloned().unwrap_or_default()
    }
}

#[test]
fn test_trait_based_sorting() {
    let mut deps = BTreeMap::new();
    deps.insert(1, vec![]);
    deps.insert(2, vec![1]);
    deps.insert(3, vec![2]);

    let graph = SortGraph { deps };
    let sorted = graph.topological_sort().unwrap();
    assert_eq!(sorted, vec![1, 2, 3]);
    assert!(graph.has_valid_ordering());
}

#[test]
fn test_compute_descendants_simple() {
    let get_deps = |&id: &usize| match id {
        1 => vec![],
        2 => vec![1],
        3 => vec![2],
        _ => vec![],
    };

    let items = [1, 2, 3];
    let descendants = compute_descendants_fn(&items, &1, get_deps);

    assert_eq!(descendants.len(), 2);
    assert!(descendants.contains(&2));
    assert!(descendants.contains(&3));
}

#[test]
fn test_compute_descendants_diamond() {
    let get_deps = |&id: &usize| match id {
        1 => vec![],
        2 => vec![1],
        3 => vec![1],
        4 => vec![2, 3],
        _ => vec![],
    };

    let items = [1, 2, 3, 4];
    let descendants = compute_descendants_fn(&items, &1, get_deps);

    assert_eq!(descendants.len(), 3);
    assert!(descendants.contains(&2));
    assert!(descendants.contains(&3));
    assert!(descendants.contains(&4));
}

#[test]
fn test_compute_ancestors_simple() {
    let get_deps = |&id: &usize| match id {
        1 => vec![],
        2 => vec![1],
        3 => vec![2],
        _ => vec![],
    };

    let items = [1, 2, 3];
    let ancestors = compute_ancestors_fn(&items, &3, get_deps);

    assert_eq!(ancestors.len(), 2);
    assert!(ancestors.contains(&1));
    assert!(ancestors.contains(&2));
}

#[test]
fn test_blast_radius() {
    let get_deps = |&id: &usize| match id {
        1 => vec![],
        2 => vec![1],
        3 => vec![2],
        4 => vec![2],
        _ => vec![],
    };

    let items = [1, 2, 3, 4];
    let (ancestors, descendants) = compute_blast_radius_fn(&items, &2, get_deps);

    assert_eq!(ancestors.len(), 1);
    assert!(ancestors.contains(&1));
    assert_eq!(descendants.len(), 2);
    assert!(descendants.contains(&3));
    assert!(descendants.contains(&4));
}

#[test]
fn test_no_impact() {
    let get_deps = |&id: &usize| match id {
        1 => vec![],
        2 => vec![],
        3 => vec![],
        _ => vec![],
    };

    let items = [1, 2, 3];
    let descendants = compute_descendants_fn(&items, &1, get_deps);
    assert_eq!(descendants.len(), 0);
}

struct ImpactGraph {
    deps: BTreeMap<usize, Vec<usize>>,
}

impl ImpactAnalyzable for ImpactGraph {
    type Id = usize;

    fn get_all_ids(&self) -> Vec<usize> {
        self.deps.keys().copied().collect()
    }

    fn get_dependencies(&self, id: &usize) -> Vec<usize> {
        self.deps.get(id).cloned().unwrap_or_default()
    }
}

#[test]
fn test_trait_based_impact() {
    let mut deps = BTreeMap::new();
    deps.insert(1, vec![]);
    deps.insert(2, vec![1]);
    deps.insert(3, vec![2]);

    let graph = ImpactGraph { deps };

    assert_eq!(graph.compute_descendants(&1).len(), 2);
    assert_eq!(graph.compute_ancestors(&3).len(), 2);
    assert_eq!(graph.impact_count(&1), 2);
    assert_eq!(graph.dependency_count(&3), 2);
}

#[test]
fn metrics_test_simple_chain() {
    let get_deps = |&id: &usize| match id {
        1 => vec![],
        2 => vec![1],
        3 => vec![2],
        _ => vec![],
    };

    let items = [1, 2, 3];
    let metrics = GraphMetrics::compute(&items, get_deps);

    assert_eq!(metrics.node_count(), 3);
    assert_eq!(metrics.edge_count(), 2);
    assert_eq!(metrics.root_count(), 1);
    assert_eq!(metrics.leaf_count(), 1);
    assert_eq!(metrics.max_depth(), 2);
    assert!(metrics.is_tree());
}

#[test]
fn metrics_test_diamond() {
    let get_deps = |&id: &usize| match id {
        1 => vec![],
        2 => vec![1],
        3 => vec![1],
        4 => vec![2, 3],
        _ => vec![],
    };

    let items = [1, 2, 3, 4];
    let metrics = GraphMetrics::compute(&items, get_deps);

    assert_eq!(metrics.node_count(), 4);
    assert_eq!(metrics.edge_count(), 4);
    assert_eq!(metrics.root_count(), 1);
    assert_eq!(metrics.leaf_count(), 1);
    assert!(metrics.max_depth() >= 2);
    assert_eq!(metrics.max_descendants(), 3);
    assert!(!metrics.is_tree());
}

#[test]
fn metrics_test_multiple_roots() {
    let get_deps = |&id: &usize| match id {
        1 => vec![],
        2 => vec![],
        3 => vec![1, 2],
        _ => vec![],
    };

    let items = [1, 2, 3];
    let metrics = GraphMetrics::compute(&items, get_deps);

    assert_eq!(metrics.root_count(), 2);
    assert_eq!(metrics.leaf_count(), 1);
    assert!(!metrics.is_tree());
    assert_eq!(metrics.edge_count(), 2);
}

#[test]
fn metrics_of_no_items() {
    let get_deps = |_: &usize| vec![];
    let items: [usize; 0] = [];
    let metrics = GraphMetrics::compute(&items, get_deps);

    assert_eq!(metrics.node_count(), 0);
    assert_eq!(metrics.edge_count(), 0);
}

#[test]
fn isolated_items_are_roots_and_leaves() {
    let get_deps = |_: &usize| vec![];
    let items = [1, 2, 3, 4, 5];
    let metrics = GraphMetrics::compute(&items, get_deps);

    assert_eq!(metrics.node_count(), 5);
    assert_eq!(metrics.edge_count(), 0);
    assert_eq!(metrics.root_count(), 5);
    assert_eq!(metrics.leaf_count(), 5);
    assert!(metrics.is_sparse());
}
