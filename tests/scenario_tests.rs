use ascii_dag::{RenderMode, DAG};

fn build_diamond() -> DAG {
    let mut dag = DAG::new();
    dag.add_node(1, "Root");
    dag.add_node(2, "Left");
    dag.add_node(3, "Right");
    dag.add_node(4, "Merge");
    dag.add_edge(1, 2);
    dag.add_edge(1, 3);
    dag.add_edge(2, 4);
    dag.add_edge(3, 4);
    dag
}

#[test]
fn simple_chain_renders_on_one_line() {
    let dag = DAG::from_edges(&[(1, "A"), (2, "B"), (3, "C")], &[(1, 2), (2, 3)]);
    let output = dag.render();
    assert_eq!(output, "[A] → [B] → [C]\n");
    assert_eq!(output.lines().count(), 1);
}

#[test]
fn diamond_renders_levels_and_connectors() {
    let output = build_diamond().render();
    let lines: Vec<&str> = output.lines().collect();
    assert!(lines[0].contains("[Root]"));
    assert!(!lines[0].contains("[Left]"));
    let second = lines
        .iter()
        .position(|l| l.contains("[Left]") && l.contains("[Right]"))
        .expect("Left and Right share a line");
    let third = lines
        .iter()
        .position(|l| l.contains("[Merge]"))
        .expect("Merge has a line");
    assert!(second < third);
    assert!(!lines[third].contains("[Left]"));
    let between_first: String = lines[1..second].join("\n");
    assert!(between_first.contains('┌') && between_first.contains('┐'));
    let between_second: String = lines[second + 1..third].join("\n");
    assert!(between_second.contains('└') && between_second.contains('┘'));
    assert!(between_second.contains('↓'));
}

#[test]
fn self_loop_renders_cycle_report() {
    let mut dag = DAG::new();
    dag.add_node(1, "SelfRef");
    dag.add_edge(1, 1);
    assert!(dag.has_cycle());
    let output = dag.render();
    assert!(output.starts_with("⚠️  CYCLE DETECTED - Not a valid DAG\n\n"));
    assert!(output.contains("[SelfRef] ⇄ [SelfRef]"));
    assert!(output.contains("circular") || output.contains("infinite loop"));
}

#[test]
fn missing_endpoint_becomes_placeholder() {
    let mut dag = DAG::new();
    dag.add_node(1, "Start");
    dag.add_edge(1, 2);
    let output = dag.render();
    assert!(output.contains("[Start]"));
    assert!(output.contains("⟨2⟩"));
    assert_eq!(output, "[Start] → ⟨2⟩\n");
}

#[test]
fn empty_graph_renders_placeholder_text() {
    let dag = DAG::new();
    assert_eq!(dag.render(), "Empty DAG");
}

#[test]
fn same_calls_render_identically() {
    let a = build_diamond().render();
    let b = build_diamond().render();
    assert_eq!(a, b);
    let mut c1 = DAG::new();
    let mut c2 = DAG::new();
    for dag in [&mut c1, &mut c2] {
        dag.add_edge(5, 6);
        dag.add_edge(7, 8);
        dag.add_node(5, "Five");
    }
    assert_eq!(c1.render(), c2.render());
}

#[test]
fn promotion_keeps_a_single_node() {
    let mut dag = DAG::new();
    dag.add_edge(1, 2);
    assert!(dag.is_auto_created(1));
    dag.add_node(1, "One");
    assert!(!dag.is_auto_created(1));
    assert_eq!(dag.nodes().len(), 2);
    assert_eq!(dag.nodes()[0].0, 1);
    let out = dag.render();
    assert!(out.contains("[One]"));
    assert!(!out.contains("⟨1⟩"));
}

#[test]
fn acyclic_graph_has_no_cycle_report() {
    let dag = build_diamond();
    assert!(!dag.has_cycle());
    assert!(!dag.render().contains("CYCLE DETECTED"));
}

#[test]
fn longer_cycle_is_reported_in_order() {
    let mut dag = DAG::new();
    dag.add_node(1, "A");
    dag.add_node(2, "B");
    dag.add_node(3, "C");
    dag.add_edge(1, 2);
    dag.add_edge(2, 3);
    dag.add_edge(3, 1);
    let output = dag.render();
    assert_eq!(
        output,
        "⚠️  CYCLE DETECTED - Not a valid DAG\n\nCyclic dependency chain:\n[A] → [B] → [C] ⇄ [A]\n\nThis creates an infinite loop in error dependencies.\n"
    );
}

#[test]
fn estimate_size_follows_formula() {
    let dag = DAG::from_edges(&[(1, "A"), (2, "B")], &[(1, 2)]);
    assert_eq!(dag.estimate_size(), 2 * 25 + 15 + 200);
    assert_eq!(DAG::new().estimate_size(), 200);
}

#[test]
fn render_to_appends_to_buffer() {
    let dag = DAG::from_edges(&[(1, "A")], &[]);
    let mut buffer = String::from(">");
    dag.render_to(&mut buffer);
    assert_eq!(buffer, ">[A]\n");
}

#[test]
fn forced_modes_change_layout() {
    let mut dag = DAG::from_edges(&[(1, "A"), (2, "B")], &[(1, 2)]);
    dag.set_render_mode(RenderMode::Vertical);
    let vertical = dag.render();
    assert!(vertical.contains('↓'));
    assert_eq!(vertical.lines().count(), 4);
    let dag2 = DAG::with_mode(RenderMode::Horizontal);
    assert_eq!(dag2.render(), "Empty DAG");
}

#[test]
fn disconnected_pieces_render_separately() {
    let dag = DAG::from_edges(&[(1, "A"), (2, "B"), (3, "C"), (4, "D")], &[(1, 2), (3, 4)]);
    let output = dag.render();
    assert_eq!(output, "[A] → [B]\n\n[C] → [D]\n");
}

#[test]
fn placeholder_width_counts_digits() {
    let mut dag = DAG::new();
    dag.add_edge(12345, 0);
    let output = dag.render();
    assert_eq!(output, "⟨12345⟩ → ⟨0⟩\n");
}

#[test]
fn empty_label_is_drawn_as_placeholder() {
    let mut dag = DAG::new();
    dag.add_node(7, "");
    assert!(!dag.is_auto_created(7));
    assert_eq!(dag.render(), "⟨7⟩\n");
}

#[test]
fn skewed_layout_stays_left_to_right() {
    let mut dag = DAG::new();
    dag.add_node(1, "Top");
    dag.add_node(2, "LongerName");
    dag.add_node(3, "B");
    dag.add_node(4, "C");
    dag.add_node(5, "Other");
    dag.add_edge(1, 2);
    dag.add_edge(1, 3);
    dag.add_edge(1, 4);
    dag.add_edge(5, 4);
    let output = dag.render();
    for line in output.lines() {
        let mut last = None;
        for name in ["[LongerName]", "[B]", "[C]"] {
            if let Some(p) = line.find(name) {
                if let Some(q) = last {
                    assert!(q < p);
                }
                last = Some(p);
            }
        }
    }
}

#[test]
fn disconnected_piece_uses_two_line_connectors() {
    let dag = DAG::from_edges(&[(1, "A"), (2, "B"), (3, "C"), (4, "D")], &[(1, 2), (1, 3)]);
    let output = dag.render();
    assert_eq!(output, "[A]\n │      \n ↓      \n[B]   [C]\n\n[D]\n");
}

#[test]
fn topological_order_puts_dependencies_first() {
    let get_deps = |&id: &usize| match id {
        4 => vec![2, 3],
        3 => vec![1],
        2 => vec![1],
        _ => vec![],
    };
    let items = [4, 3, 2, 1];
    let sorted = ascii_dag::generic::topological_sort_fn(&items, get_deps).unwrap();
    assert_eq!(sorted, vec![1, 3, 2, 4]);
}

#[test]
fn detected_cycle_keeps_the_search_path() {
    let self_loop = |id: &usize| -> Vec<usize> { if *id == 1 { vec![1] } else { vec![] } };
    assert_eq!(ascii_dag::generic::detect_cycle_fn(&[1usize], self_loop), Some(vec![1, 1]));
    let ring = |id: &usize| -> Vec<usize> {
        match id {
            1 => vec![2],
            2 => vec![3],
            3 => vec![1],
            _ => vec![],
        }
    };
    assert_eq!(ascii_dag::generic::detect_cycle_fn(&[1usize, 2, 3], ring), Some(vec![1, 3, 2, 1]));
    assert_eq!(ascii_dag::generic::topological_sort_fn(&[1usize, 2, 3], ring), Err(vec![1, 3, 2, 1]));
}

#[test]
fn render_to_matches_render() {
    let mut dag = DAG::new();
    dag.add_edge(1, 2);
    dag.add_edge(2, 1);
    dag.add_edge(3, 4);
    let mut buffer = String::new();
    dag.render_to(&mut buffer);
    assert_eq!(buffer, dag.render());
    assert!(buffer.contains("⟨1⟩ → ⟨2⟩ ⇄ ⟨1⟩"));
}
