use std::any::TypeId;

use trait_kit::graph::{DependencyGraph, GraphError, ModuleEntry};
use trait_kit::layers::topo_layers;
use trait_kit::text::escape_label;

struct A;
struct B;
struct C;
struct D;

fn typed_entry<T: 'static>(name: &'static str, deps: Vec<(&'static str, TypeId)>) -> ModuleEntry {
    ModuleEntry {
        type_id: TypeId::of::<T>(),
        name,
        dependencies: deps,
    }
}

/// Quotes pair up (ignoring `\"`) and backslashes only start `\\`, `\"` or `\n`.
fn assert_label_escapes_valid(output: &str) {
    let mut escaped = false;
    let mut unescaped_quotes = 0usize;
    for c in output.chars() {
        if escaped {
            assert!(
                matches!(c, '\\' | '"' | 'n'),
                "bare backslash escape \\{c} in output: {output}"
            );
            escaped = false;
        } else if c == '\\' {
            escaped = true;
        } else if c == '"' {
            unescaped_quotes += 1;
        }
    }
    assert!(!escaped, "trailing backslash in output: {output}");
    assert_eq!(unescaped_quotes % 2, 0, "unpaired quotes in output: {output}");
}

#[test]
fn graph_new_is_empty() {
    let g = DependencyGraph::new();
    assert!(g.entries().is_empty());
}

#[test]
fn graph_add_and_entries() {
    let mut g = DependencyGraph::new();
    g.add(typed_entry::<A>("a", vec![])).unwrap();
    assert_eq!(g.entries().len(), 1);
}

#[test]
fn graph_add_duplicate_returns_err() {
    let mut g = DependencyGraph::new();
    g.add(typed_entry::<A>("a", vec![])).unwrap();
    let err = g.add(typed_entry::<A>("a2", vec![])).unwrap_err();
    assert_eq!(err, "a");
}

#[test]
fn graph_validate_empty_succeeds() {
    let g = DependencyGraph::new();
    let sorted = g.validate().unwrap();
    assert!(sorted.is_empty());
}

#[test]
fn graph_validate_single_node() {
    let mut g = DependencyGraph::new();
    g.add(typed_entry::<A>("a", vec![])).unwrap();
    let sorted = g.validate().unwrap();
    assert_eq!(sorted.len(), 1);
}

#[test]
fn graph_validate_missing_dependency() {
    let mut g = DependencyGraph::new();
    g.add(typed_entry::<A>("a", vec![("b", TypeId::of::<B>())])).unwrap();
    let err = g.validate().unwrap_err();
    assert!(matches!(
        err,
        GraphError::DependencyMissing {
            module: "a",
            missing: "b"
        }
    ));
}

#[test]
fn graph_validate_cycle_two_nodes() {
    let mut g = DependencyGraph::new();
    g.add(typed_entry::<A>("a", vec![("b", TypeId::of::<B>())])).unwrap();
    g.add(typed_entry::<B>("b", vec![("a", TypeId::of::<A>())])).unwrap();
    let err = g.validate().unwrap_err();
    assert!(matches!(err, GraphError::CycleDetected { .. }));
    if let GraphError::CycleDetected { cycle } = err {
        assert!(cycle.len() >= 2, "cycle should contain at least 2 names");
    }
}

#[test]
fn graph_validate_cycle_three_nodes() {
    let mut g = DependencyGraph::new();
    g.add(typed_entry::<A>("a", vec![("b", TypeId::of::<B>())])).unwrap();
    g.add(typed_entry::<B>("b", vec![("c", TypeId::of::<C>())])).unwrap();
    g.add(typed_entry::<C>("c", vec![("a", TypeId::of::<A>())])).unwrap();
    let err = g.validate().unwrap_err();
    assert!(matches!(err, GraphError::CycleDetected { .. }));
}

#[test]
fn graph_validate_topo_order() {
    let mut g = DependencyGraph::new();
    g.add(typed_entry::<A>("a", vec![])).unwrap();
    g.add(typed_entry::<B>("b", vec![("a", TypeId::of::<A>())])).unwrap();
    let sorted = g.validate().unwrap();
    let a_idx = sorted.iter().position(|t| *t == TypeId::of::<A>()).unwrap();
    let b_idx = sorted.iter().position(|t| *t == TypeId::of::<B>()).unwrap();
    assert!(a_idx < b_idx, "a should be sorted before b");
}

#[test]
fn graph_dependency_names() {
    let mut g = DependencyGraph::new();
    g.add(typed_entry::<A>("a", vec![])).unwrap();
    g.add(typed_entry::<B>("b", vec![("a", TypeId::of::<A>())])).unwrap();
    let names = g.dependency_names(TypeId::of::<B>());
    assert_eq!(names, vec!["a"]);
}

#[test]
fn graph_dependency_names_unknown_returns_empty() {
    let g = DependencyGraph::new();
    let names = g.dependency_names(TypeId::of::<A>());
    assert!(names.is_empty());
}

#[test]
fn graph_name_of() {
    let mut g = DependencyGraph::new();
    g.add(typed_entry::<A>("module-a", vec![])).unwrap();
    assert_eq!(g.name_of(TypeId::of::<A>()), Some("module-a"));
    assert_eq!(g.name_of(TypeId::of::<B>()), None);
}

#[test]
fn graph_default_is_empty() {
    let g = DependencyGraph::default();
    assert!(g.entries().is_empty());
}

#[test]
fn graph_to_dot_empty() {
    let g = DependencyGraph::new();
    assert_eq!(g.to_dot(), "digraph {}");
}

#[test]
fn graph_to_dot_with_nodes_and_edges() {
    let mut g = DependencyGraph::new();
    g.add(typed_entry::<A>("a", vec![])).unwrap();
    g.add(typed_entry::<B>("b", vec![("a", TypeId::of::<A>())])).unwrap();
    let dot = g.to_dot();
    assert!(dot.starts_with("digraph {"));
    assert!(dot.contains("\"a\""));
    assert!(dot.contains("\"b\""));
    assert!(dot.contains("\"a\" -> \"b\""));
    assert!(dot.ends_with('}'));
}

#[test]
fn graph_to_mermaid_empty() {
    let g = DependencyGraph::new();
    assert_eq!(g.to_mermaid(), "graph TD");
}

#[test]
fn graph_to_mermaid_with_nodes_and_edges() {
    let mut g = DependencyGraph::new();
    g.add(typed_entry::<A>("a", vec![])).unwrap();
    g.add(typed_entry::<B>("b", vec![("a", TypeId::of::<A>())])).unwrap();
    let mermaid = g.to_mermaid();
    assert!(mermaid.starts_with("graph TD"));
    assert!(mermaid.contains("n0[\"a\"]"));
    assert!(mermaid.contains("n1[\"b\"]"));
    assert!(mermaid.contains("-->"));
}

#[test]
fn graph_to_mermaid_hyphen_names_no_collision() {
    let mut g = DependencyGraph::new();
    g.add(typed_entry::<A>("my-module", vec![])).unwrap();
    g.add(typed_entry::<B>("my-dep", vec![("my-module", TypeId::of::<A>())]))
        .unwrap();
    let mermaid = g.to_mermaid();
    assert!(mermaid.contains("n0[\"my-module\"]"));
    assert!(mermaid.contains("n1[\"my-dep\"]"));
    assert!(mermaid.contains("my-module"));
    assert!(mermaid.contains("my-dep"));
}

#[test]
fn graph_to_mermaid_unregistered_dependency_no_self_loop() {
    let mut g = DependencyGraph::new();
    g.add(typed_entry::<A>("a", vec![("ghost", TypeId::of::<B>())])).unwrap();
    let mermaid = g.to_mermaid();
    assert!(
        !mermaid.contains("-->"),
        "unregistered dependency must be skipped, got: {mermaid}"
    );
    assert!(
        !mermaid.contains("n0 --> n0"),
        "self-loop must not appear, got: {mermaid}"
    );
}

#[test]
fn graph_to_mermaid_unregistered_and_registered_dependencies_mixed() {
    let mut g = DependencyGraph::new();
    g.add(typed_entry::<A>("a", vec![])).unwrap();
    g.add(typed_entry::<B>(
        "b",
        vec![("a", TypeId::of::<A>()), ("ghost", TypeId::of::<C>())],
    ))
    .unwrap();
    let mermaid = g.to_mermaid();
    assert!(mermaid.contains("n0[\"a\"] --> n1[\"b\"]"));
    assert_eq!(mermaid.matches("-->").count(), 1, "got: {mermaid}");
    assert!(!mermaid.contains("n1 --> n1"));
}

#[test]
fn graph_to_dot_escapes_special_characters() {
    let mut g = DependencyGraph::new();
    g.add(typed_entry::<A>("we\"ird\\name", vec![])).unwrap();
    g.add(typed_entry::<B>(
        "line\nbreak",
        vec![("we\"ird\\name", TypeId::of::<A>())],
    ))
    .unwrap();
    let dot = g.to_dot();
    assert!(dot.contains("\"we\\\"ird\\\\name\""), "got: {dot}");
    assert!(dot.contains("\"line\\nbreak\""), "got: {dot}");
    assert_label_escapes_valid(&dot);
}

#[test]
fn graph_to_mermaid_escapes_special_characters() {
    let mut g = DependencyGraph::new();
    g.add(typed_entry::<A>("q\"uote", vec![])).unwrap();
    let mermaid = g.to_mermaid();
    assert!(mermaid.contains("n0[\"q\\\"uote\"]"), "got: {mermaid}");
    assert_label_escapes_valid(&mermaid);
}

#[test]
fn graph_error_display_and_std_error() {
    let err = GraphError::DependencyMissing {
        module: "a",
        missing: "b",
    };
    let msg = err.message();
    assert!(msg.contains('a') && msg.contains('b'), "got: {msg}");

    let cycle = GraphError::CycleDetected {
        cycle: vec!["a", "b", "a"],
    };
    let cycle_msg = cycle.message();
    assert!(cycle_msg.contains("a -> b"), "got: {cycle_msg}");

    assert!(err.message().contains("unregistered"));
}

#[test]
fn graph_error_debug() {
    let err = GraphError::DependencyMissing {
        module: "a",
        missing: "b",
    };
    let debug = format!("{err:?}");
    assert!(debug.contains("DependencyMissing"));

    let err2 = GraphError::CycleDetected {
        cycle: vec!["a", "b", "a"],
    };
    let debug2 = format!("{err2:?}");
    assert!(debug2.contains("CycleDetected"));
}

#[test]
fn graph_error_messages_exact() {
    let err = GraphError::DependencyMissing {
        module: "a",
        missing: "b",
    };
    assert_eq!(err.message(), "module `a` depends on unregistered module `b`");
    let cycle = GraphError::CycleDetected {
        cycle: vec!["a", "b", "c", "a"],
    };
    assert_eq!(cycle.message(), "dependency cycle detected: a -> b -> c -> a");
}

#[test]
fn graph_validate_reports_first_missing_in_registration_order() {
    let mut g = DependencyGraph::new();
    g.add(typed_entry::<A>("a", vec![])).unwrap();
    g.add(typed_entry::<B>(
        "b",
        vec![("a", TypeId::of::<A>()), ("x", TypeId::of::<C>())],
    ))
    .unwrap();
    g.add(typed_entry::<D>("d", vec![("y", TypeId::of::<C>())])).unwrap();
    let err = g.validate().unwrap_err();
    assert_eq!(
        err,
        GraphError::DependencyMissing {
            module: "b",
            missing: "x"
        }
    );
}

#[test]
fn graph_validate_cycle_names_close_on_first() {
    let mut g = DependencyGraph::new();
    g.add(typed_entry::<A>("a", vec![("b", TypeId::of::<B>())])).unwrap();
    g.add(typed_entry::<B>("b", vec![("a", TypeId::of::<A>())])).unwrap();
    match g.validate().unwrap_err() {
        GraphError::CycleDetected { cycle } => {
            assert_eq!(cycle.first(), cycle.last());
            assert!(cycle.contains(&"a") && cycle.contains(&"b"));
        }
        other => panic!("expected a cycle, got {other:?}"),
    }
}

#[test]
fn graph_validate_diamond_puts_dependencies_first() {
    let mut g = DependencyGraph::new();
    g.add(typed_entry::<D>(
        "d",
        vec![("b", TypeId::of::<B>()), ("c", TypeId::of::<C>())],
    ))
    .unwrap();
    g.add(typed_entry::<B>("b", vec![("a", TypeId::of::<A>())])).unwrap();
    g.add(typed_entry::<C>("c", vec![("a", TypeId::of::<A>())])).unwrap();
    g.add(typed_entry::<A>("a", vec![])).unwrap();
    let sorted = g.validate().unwrap();
    let pos = |t: TypeId| sorted.iter().position(|x| *x == t).unwrap();
    assert_eq!(sorted.len(), 4);
    assert!(pos(TypeId::of::<A>()) < pos(TypeId::of::<B>()));
    assert!(pos(TypeId::of::<A>()) < pos(TypeId::of::<C>()));
    assert!(pos(TypeId::of::<B>()) < pos(TypeId::of::<D>()));
    assert!(pos(TypeId::of::<C>()) < pos(TypeId::of::<D>()));
}

#[test]
fn topo_layers_groups_independent_modules() {
    let mut g = DependencyGraph::new();
    g.add(typed_entry::<A>("a", vec![])).unwrap();
    g.add(typed_entry::<B>("b", vec![("a", TypeId::of::<A>())])).unwrap();
    g.add(typed_entry::<C>("c", vec![("a", TypeId::of::<A>())])).unwrap();
    g.add(typed_entry::<D>(
        "d",
        vec![("b", TypeId::of::<B>()), ("c", TypeId::of::<C>())],
    ))
    .unwrap();
    let sorted = g.validate().unwrap();
    let layers = topo_layers(&g, &sorted);
    assert_eq!(layers.len(), 3);
    assert_eq!(layers[0], vec![TypeId::of::<A>()]);
    assert_eq!(layers[1].len(), 2);
    assert!(layers[1].contains(&TypeId::of::<B>()));
    assert!(layers[1].contains(&TypeId::of::<C>()));
    assert_eq!(layers[2], vec![TypeId::of::<D>()]);
}

#[test]
fn topo_layers_empty_and_flat() {
    let g = DependencyGraph::new();
    assert!(topo_layers(&g, &[]).is_empty());

    let mut g = DependencyGraph::new();
    g.add(typed_entry::<A>("a", vec![])).unwrap();
    g.add(typed_entry::<B>("b", vec![])).unwrap();
    let sorted = g.validate().unwrap();
    let layers = topo_layers(&g, &sorted);
    assert_eq!(layers.len(), 1);
    assert_eq!(layers[0].len(), 2);
}

#[test]
fn topo_layers_chain_is_one_module_per_level() {
    let mut g = DependencyGraph::new();
    g.add(typed_entry::<A>("a", vec![])).unwrap();
    g.add(typed_entry::<B>("b", vec![("a", TypeId::of::<A>())])).unwrap();
    g.add(typed_entry::<C>("c", vec![("b", TypeId::of::<B>())])).unwrap();
    let sorted = g.validate().unwrap();
    let layers = topo_layers(&g, &sorted);
    assert_eq!(
        layers,
        vec![
            vec![TypeId::of::<A>()],
            vec![TypeId::of::<B>()],
            vec![TypeId::of::<C>()]
        ]
    );
}

#[test]
fn escape_label_examples_decode_back() {
    assert_eq!(escape_label("we\"ird\\name"), "we\\\"ird\\\\name");
    assert_eq!(escape_label("line\nbreak"), "line\\nbreak");
    assert!(!escape_label("a\nb\nc").contains('\n'));
}

#[test]
fn topo_layers_partition_sorted_order() {
    let mut g = DependencyGraph::new();
    g.add(typed_entry::<A>("a", vec![])).unwrap();
    g.add(typed_entry::<B>("b", vec![])).unwrap();
    g.add(typed_entry::<C>("c", vec![("a", TypeId::of::<A>())])).unwrap();
    g.add(typed_entry::<D>("d", vec![("b", TypeId::of::<B>())])).unwrap();
    let sorted = g.validate().unwrap();
    let layers = topo_layers(&g, &sorted);
    let flat: Vec<TypeId> = layers.iter().flatten().copied().collect();
    assert_eq!(flat.len(), sorted.len());
    for id in &sorted {
        assert_eq!(flat.iter().filter(|x| *x == id).count(), 1);
    }
    for layer in &layers {
        let pos: Vec<usize> = layer
            .iter()
            .map(|id| sorted.iter().position(|s| s == id).unwrap())
            .collect();
        assert!(pos.windows(2).all(|w| w[0] < w[1]));
    }
}
