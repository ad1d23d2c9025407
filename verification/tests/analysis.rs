use repo_mapper::component::{
    AnalysisError, ComponentType, DependencyEdge, EdgeType, SymbolRecord, Visibility,
};
use repo_mapper::mapper::RepositoryMapper;
use repo_mapper::responses::RepositoryAnalysisResponse;

fn sym(id: &str, file: &str) -> SymbolRecord {
    SymbolRecord {
        id: id.to_string(),
        name: id.to_string(),
        component_type: ComponentType::Function,
        file_path: file.to_string(),
        start_line: 1,
        end_line: 2,
        visibility: Visibility::Public,
        complexity_score: 1,
    }
}

fn fact(from: &str, to: &str) -> DependencyEdge {
    DependencyEdge {
        from: from.to_string(),
        to: to.to_string(),
        edge_type: EdgeType::FunctionCall,
    }
}

fn ids(v: &[&str]) -> Vec<String> {
    v.iter().map(|s| s.to_string()).collect()
}

fn analyzed(symbols: Vec<SymbolRecord>, facts: Vec<DependencyEdge>) -> RepositoryMapper {
    let mut mapper = RepositoryMapper::new();
    mapper
        .analyze_repository(&symbols, &facts)
        .expect("analysis should succeed");
    mapper
}

#[test]
fn scenario_linear_chain() {
    let m = analyzed(
        vec![sym("a", "f.rs"), sym("b", "f.rs"), sym("c", "f.rs")],
        vec![fact("a", "b"), fact("b", "c")],
    );
    assert_eq!(m.topological_order, ids(&["c", "b", "a"]));
    assert!(m.graph.cycles.is_empty());
    assert!(!m.cycles_present);
    assert_eq!(m.insights.entry_points, ids(&["c"]));
}

#[test]
fn scenario_mutual_cycle() {
    let m = analyzed(
        vec![sym("x", "f.rs"), sym("y", "f.rs")],
        vec![fact("x", "y"), fact("y", "x")],
    );
    assert_eq!(m.graph.cycles.len(), 1);
    let members = &m.graph.cycles[0];
    assert_eq!(members.len(), 2);
    assert!(members.contains(&"x".to_string()));
    assert!(members.contains(&"y".to_string()));
    assert_eq!(m.topological_order.len(), 2);
    assert!(m.topological_order.contains(&"x".to_string()));
    assert!(m.topological_order.contains(&"y".to_string()));
    assert!(m.cycles_present);
    assert!(m.insights.entry_points.is_empty());
}

#[test]
fn scenario_self_edge() {
    let m = analyzed(vec![sym("s", "f.rs")], vec![fact("s", "s")]);
    assert_eq!(m.graph.cycles, vec![ids(&["s"])]);
    assert!(m.cycles_present);
    assert_eq!(m.topological_order, ids(&["s"]));
}

#[test]
fn scenario_unresolved_reference() {
    let m = analyzed(vec![sym("p", "f.rs")], vec![fact("p", "missing")]);
    assert_eq!(m.unresolved_references, 1);
    assert!(m.graph.edges.is_empty());
    assert_eq!(m.graph.components.len(), 1);
    assert_eq!(m.graph.components[0].id, "p");
    assert!(m.graph.components[0].dependencies.is_empty());
}

#[test]
fn scenario_isolated_components() {
    let names: Vec<String> = (1..=15).map(|i| format!("c{:02}", i)).collect();
    let symbols: Vec<SymbolRecord> = names.iter().map(|n| sym(n, "f.rs")).collect();
    let m = analyzed(symbols, vec![]);
    assert_eq!(m.insights.entry_points, names);
    assert!(m.insights.most_connected_components.is_empty());
    assert_eq!(m.topological_order, names);
}

#[test]
fn invalid_range_rejected() {
    let mut bad = sym("bad", "f.rs");
    bad.start_line = 9;
    bad.end_line = 3;
    let m = analyzed(vec![bad, sym("ok", "f.rs")], vec![]);
    assert_eq!(m.invalid_records, 1);
    assert_eq!(m.graph.components.len(), 1);
    assert_eq!(m.graph.components[0].id, "ok");
}

#[test]
fn duplicate_id_same_file_replaces() {
    let mut second = sym("a", "f.rs");
    second.name = "renamed".to_string();
    second.complexity_score = 7;
    let m = analyzed(vec![sym("a", "f.rs"), second], vec![]);
    assert_eq!(m.graph.components.len(), 1);
    assert_eq!(m.graph.components[0].name, "renamed");
    assert_eq!(m.graph.components[0].complexity_score, 7);
}

#[test]
fn duplicate_id_across_files_is_fatal() {
    let mut mapper = RepositoryMapper::new();
    let symbols = vec![sym("a", "one.rs"), sym("a", "two.rs")];
    let r = mapper.analyze_repository(&symbols, &vec![]);
    match r {
        Err(AnalysisError::DuplicateId { id }) => assert_eq!(id, "a"),
        Ok(()) => panic!("duplicate ids across files must fail"),
    }
    assert!(mapper.graph.components.is_empty());
    assert!(mapper.topological_order.is_empty());
}

#[test]
fn multi_edges_collapse_in_lists() {
    let m = analyzed(
        vec![sym("a", "f.rs"), sym("b", "f.rs")],
        vec![
            fact("a", "b"),
            DependencyEdge {
                from: "a".to_string(),
                to: "b".to_string(),
                edge_type: EdgeType::MethodCall,
            },
        ],
    );
    assert_eq!(m.graph.edges.len(), 2);
    assert_eq!(m.graph.components[0].dependencies, ids(&["b"]));
    assert_eq!(m.graph.components[1].dependents, ids(&["a"]));
}

#[test]
fn bidirectional_consistency_holds() {
    let m = analyzed(
        vec![sym("a", "f.rs"), sym("b", "f.rs"), sym("c", "g.rs")],
        vec![fact("a", "b"), fact("a", "c"), fact("c", "a")],
    );
    for comp in &m.graph.components {
        for dep in &comp.dependencies {
            let other = m
                .graph
                .components
                .iter()
                .find(|c| &c.id == dep)
                .expect("dependency id must exist");
            assert!(other.dependents.contains(&comp.id));
        }
        for dep in &comp.dependents {
            let other = m
                .graph
                .components
                .iter()
                .find(|c| &c.id == dep)
                .expect("dependent id must exist");
            assert!(other.dependencies.contains(&comp.id));
        }
    }
}

#[test]
fn cycles_are_disjoint() {
    let m = analyzed(
        vec![
            sym("a", "f.rs"),
            sym("b", "f.rs"),
            sym("c", "f.rs"),
            sym("d", "f.rs"),
            sym("e", "f.rs"),
        ],
        vec![
            fact("a", "b"),
            fact("b", "a"),
            fact("c", "d"),
            fact("d", "c"),
            fact("e", "a"),
        ],
    );
    assert_eq!(m.graph.cycles.len(), 2);
    let mut seen: Vec<&String> = Vec::new();
    for cycle in &m.graph.cycles {
        for id in cycle {
            assert!(!seen.contains(&id), "an id may stand in one cycle only");
            seen.push(id);
        }
    }
    assert!(seen.contains(&&"a".to_string()));
    assert!(!seen.contains(&&"e".to_string()));
}

#[test]
fn order_is_complete_with_cycles() {
    let m = analyzed(
        vec![sym("a", "f.rs"), sym("b", "f.rs"), sym("z", "f.rs")],
        vec![fact("a", "b"), fact("b", "a"), fact("z", "a")],
    );
    assert_eq!(m.topological_order.len(), m.graph.components.len());
    assert!(m.cycles_present);
    assert!(m.topological_order.contains(&"a".to_string()));
    assert!(m.topological_order.contains(&"b".to_string()));
    assert!(m.topological_order.contains(&"z".to_string()));
}

#[test]
fn analysis_is_idempotent() {
    let symbols = || {
        vec![
            sym("m", "f.rs"),
            sym("n", "g.rs"),
            sym("o", "g.rs"),
        ]
    };
    let facts = || vec![fact("m", "n"), fact("n", "o"), fact("o", "n")];
    let first = analyzed(symbols(), facts());
    let second = analyzed(symbols(), facts());
    assert_eq!(first.graph, second.graph);
    assert_eq!(first.insights, second.insights);
    assert_eq!(first.topological_order, second.topological_order);
    assert_eq!(first.cycles_present, second.cycles_present);
}

#[test]
fn most_connected_ranking() {
    let m = analyzed(
        vec![
            sym("h", "f.rs"),
            sym("x1", "f.rs"),
            sym("x2", "f.rs"),
            sym("x3", "f.rs"),
            sym("y", "f.rs"),
        ],
        vec![fact("h", "x1"), fact("h", "x2"), fact("h", "x3"), fact("y", "h")],
    );
    assert_eq!(
        m.insights.most_connected_components,
        ids(&["h", "x1", "x2", "x3", "y"])
    );
}

#[test]
fn total_files_counts_distinct_paths() {
    let m = analyzed(
        vec![sym("a", "one.rs"), sym("b", "two.rs"), sym("c", "one.rs")],
        vec![],
    );
    assert_eq!(m.insights.total_files, 2);
    assert_eq!(m.insights.total_components, 3);
}

#[test]
fn point_queries() {
    let m = analyzed(
        vec![sym("a", "f.rs"), sym("b", "f.rs")],
        vec![fact("a", "b")],
    );
    assert_eq!(m.get_dependencies("a"), Some(&ids(&["b"])));
    assert_eq!(m.get_dependents("b"), Some(&ids(&["a"])));
    assert_eq!(m.get_dependencies("nope"), None);
    assert_eq!(m.get_dependents("nope"), None);
    assert_eq!(m.get_processing_order(), &ids(&["b", "a"]));
}

#[test]
fn analysis_response_summary() {
    let m = analyzed(
        vec![sym("a", "f.rs"), sym("b", "f.rs")],
        vec![fact("a", "b")],
    );
    let r = RepositoryAnalysisResponse::of_analysis("demo".to_string(), &m);
    assert_eq!(r.project_name, "demo");
    assert_eq!(r.total_components, 2);
    assert_eq!(r.dependency_cycles, 0);
    assert_eq!(r.entry_points, ids(&["b"]));
    assert_eq!(r.topological_order, ids(&["b", "a"]));
}

#[test]
fn empty_input_yields_empty_analysis() {
    let m = analyzed(vec![], vec![]);
    assert!(m.graph.components.is_empty());
    assert!(m.graph.edges.is_empty());
    assert!(m.graph.cycles.is_empty());
    assert!(m.topological_order.is_empty());
    assert!(m.insights.entry_points.is_empty());
    assert!(m.insights.most_connected_components.is_empty());
    assert_eq!(m.insights.total_components, 0);
    assert_eq!(m.insights.total_files, 0);
    assert!(!m.cycles_present);
}

#[test]
fn three_member_rotation_is_one_cycle() {
    let m = analyzed(
        vec![sym("a", "f.rs"), sym("b", "f.rs"), sym("c", "f.rs"), sym("d", "f.rs")],
        vec![fact("a", "b"), fact("b", "c"), fact("c", "a"), fact("d", "a")],
    );
    assert_eq!(m.graph.cycles, vec![ids(&["a", "b", "c"])]);
    assert_eq!(m.topological_order.len(), 4);
    assert!(m.cycles_present);
}

#[test]
fn default_matches_new() {
    let d = RepositoryMapper::default();
    let n = RepositoryMapper::new();
    assert_eq!(d, n);
}
