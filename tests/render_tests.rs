use ascii_dag::DAG;

#[test]
fn test_empty_dag() {
    let dag = DAG::new();
    assert_eq!(dag.render(), "Empty DAG");
}

#[test]
fn lib_test_simple_chain() {
    let dag = DAG::from_edges(&[(1, "A"), (2, "B"), (3, "C")], &[(1, 2), (2, 3)]);

    let output = dag.render();
    assert!(output.contains("A"));
    assert!(output.contains("B"));
    assert!(output.contains("C"));
}

#[test]
fn lib_test_cycle_detection() {
    let mut dag = DAG::new();
    dag.add_node(1, "A");
    dag.add_node(2, "B");
    dag.add_edge(1, 2);
    dag.add_edge(2, 1);

    assert!(dag.has_cycle());
}

#[test]
fn lib_test_no_cycle() {
    let dag = DAG::from_edges(&[(1, "A"), (2, "B")], &[(1, 2)]);

    assert!(!dag.has_cycle());
}

#[test]
fn lib_test_diamond() {
    let dag = DAG::from_edges(
        &[(1, "A"), (2, "B"), (3, "C"), (4, "D")],
        &[(1, 2), (1, 3), (2, 4), (3, 4)],
    );

    assert!(!dag.has_cycle());
    let output = dag.render();
    assert!(output.contains("A"));
    assert!(output.contains("D"));
}

#[test]
fn test_auto_created_nodes() {
    let mut dag = DAG::new();
    dag.add_node(1, "A");
    dag.add_edge(1, 2);
    dag.add_node(3, "C");
    dag.add_edge(2, 3);

    let output = dag.render();

    assert!(output.contains("[A]"));
    assert!(output.contains("[C]"));
    assert!(output.contains("⟨2⟩"));

    assert!(dag.is_auto_created(2));
    assert!(!dag.is_auto_created(1));
    assert!(!dag.is_auto_created(3));
}

#[test]
fn test_no_auto_creation_when_explicit() {
    let mut dag = DAG::new();
    dag.add_node(1, "A");
    dag.add_node(2, "B");
    dag.add_edge(1, 2);

    let output = dag.render();

    assert!(output.contains("[A]"));
    assert!(output.contains("[B]"));
    assert!(!output.contains("⟨"));

    assert!(!dag.is_auto_created(1));
    assert!(!dag.is_auto_created(2));
}

#[test]
fn test_edge_to_missing_node_no_panic() {
    let mut dag = DAG::new();
    dag.add_node(1, "A");
    dag.add_edge(1, 2);

    let output = dag.render();

    assert!(output.contains("[A]"));
    assert!(output.contains("⟨2⟩"));
}

#[test]
fn test_cross_level_edges() {
    let mut dag = DAG::new();

    dag.add_node(1, "Root");
    dag.add_node(2, "Middle");
    dag.add_node(3, "End");

    dag.add_edge(1, 2);
    dag.add_edge(1, 3);
    dag.add_edge(2, 3);

    let output = dag.render();

    assert!(output.contains("[Root]"));
    assert!(output.contains("[Middle]"));
    assert!(output.contains("[End]"));
}

#[test]
fn test_crossing_reduction() {
    let mut dag = DAG::new();

    dag.add_node(1, "Top");
    dag.add_node(2, "Right");
    dag.add_node(3, "Left");
    dag.add_node(4, "Bottom");

    dag.add_edge(1, 3);
    dag.add_edge(1, 2);
    dag.add_edge(3, 4);
    dag.add_edge(2, 4);

    let output = dag.render();

    assert!(output.contains("[Top]"));
    assert!(output.contains("[Left]"));
    assert!(output.contains("[Right]"));
    assert!(output.contains("[Bottom]"));

    let lines: Vec<&str> = output.lines().collect();
    assert!(
        lines.len() >= 5,
        "Should have multiple lines for diamond pattern"
    );
}

#[test]
fn lib_test_cycle_with_auto_created_nodes() {
    let mut dag = DAG::new();
    dag.add_node(1, "A");
    dag.add_edge(1, 2);
    dag.add_edge(2, 1);

    let output = dag.render();

    assert!(output.contains("CYCLE DETECTED"));
    assert!(output.contains("⟨2⟩"));
    assert!(output.contains("[A]"));
}

#[test]
fn test_auto_created_node_promotion() {
    let mut dag = DAG::new();

    dag.add_node(1, "A");
    dag.add_edge(1, 2);

    assert!(dag.is_auto_created(2));
    let output = dag.render();
    assert!(output.contains("⟨2⟩"), "Before promotion, should show ⟨2⟩");
    assert!(
        !output.contains("[B]"),
        "Before promotion, should not show [B]"
    );

    dag.add_node(2, "B");

    assert!(
        !dag.is_auto_created(2),
        "After promotion, should not be auto-created"
    );
    let output_after = dag.render();
    assert!(
        output_after.contains("[B]"),
        "After promotion, should show [B]"
    );
    assert!(
        !output_after.contains("⟨2⟩"),
        "After promotion, should not show ⟨2⟩"
    );

    let node_count = dag.nodes().iter().filter(|(id, _)| *id == 2).count();
    assert_eq!(node_count, 1, "Should only have one node with id=2");
}

#[test]
fn test_skewed_children_rendering_order() {
    let mut dag = DAG::new();

    dag.add_node(1, "Top");
    dag.add_node(2, "A");
    dag.add_node(3, "B");
    dag.add_node(4, "C");

    dag.add_edge(1, 2);
    dag.add_edge(1, 3);
    dag.add_edge(1, 4);

    let output = dag.render();

    let lines: Vec<&str> = output.lines().collect();
    let child_line = lines
        .iter()
        .find(|line| line.contains("[A]") && line.contains("[B]") && line.contains("[C]"))
        .expect("Should find line with all children");

    let a_pos = child_line.find("[A]").unwrap();
    let b_pos = child_line.find("[B]").unwrap();
    let c_pos = child_line.find("[C]").unwrap();

    assert!(a_pos < b_pos, "A should be left of B");
    assert!(b_pos < c_pos, "B should be left of C");
}

#[test]
fn cycles_test_cycle_detection() {
    let mut dag = DAG::new();
    dag.add_node(1, "A");
    dag.add_node(2, "B");
    dag.add_edge(1, 2);
    dag.add_edge(2, 1);

    assert!(dag.has_cycle());
}

#[test]
fn cycles_test_no_cycle() {
    let dag = DAG::from_edges(&[(1, "A"), (2, "B")], &[(1, 2)]);

    assert!(!dag.has_cycle());
}

#[test]
fn cycles_test_cycle_with_auto_created_nodes() {
    let mut dag = DAG::new();
    dag.add_node(1, "A");
    dag.add_edge(1, 2);
    dag.add_edge(2, 1);

    assert!(dag.has_cycle());
}

#[test]
fn test_calculate_levels() {
    let dag = DAG::from_edges(&[(1, "A"), (2, "B"), (3, "C")], &[(1, 2), (2, 3)]);

    let levels = dag.calculate_levels();

    let level_map: std::collections::HashMap<_, _> = levels
        .into_iter()
        .map(|(idx, level)| (dag.nodes()[idx].0, level))
        .collect();

    assert_eq!(level_map[&1], 0);
    assert_eq!(level_map[&2], 1);
    assert_eq!(level_map[&3], 2);
}

#[test]
fn test_diamond_layout() {
    let dag = DAG::from_edges(
        &[(1, "Top"), (2, "Left"), (3, "Right"), (4, "Bottom")],
        &[(1, 2), (1, 3), (2, 4), (3, 4)],
    );

    let levels = dag.calculate_levels();
    let level_map: std::collections::HashMap<_, _> = levels
        .into_iter()
        .map(|(idx, level)| (dag.nodes()[idx].0, level))
        .collect();

    assert_eq!(level_map[&1], 0);
    assert_eq!(level_map[&2], 1);
    assert_eq!(level_map[&3], 1);
    assert_eq!(level_map[&4], 2);
}
