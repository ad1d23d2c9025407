use repo_mapper::component::{ComponentType, DependencyEdge, EdgeType, SymbolRecord, Visibility};
use repo_mapper::doc::{from_document, round_trip_check, to_document, DocField, DocValue};
use repo_mapper::mapper::RepositoryMapper;
use repo_mapper::render::render_usize;
use repo_mapper::sorting::sort_ids;
use repo_mapper::strid::{str_eq, str_le, str_lt};

fn sym(id: &str, file: &str) -> SymbolRecord {
    SymbolRecord {
        id: id.to_string(),
        name: id.to_string(),
        component_type: ComponentType::Function,
        file_path: file.to_string(),
        start_line: 1,
        end_line: 2,
        visibility: Visibility::Public,
        complexity_score: 1,
    }
}

fn fact(from: &str, to: &str) -> DependencyEdge {
    DependencyEdge {
        from: from.to_string(),
        to: to.to_string(),
        edge_type: EdgeType::FunctionCall,
    }
}

fn analyzed(symbols: Vec<SymbolRecord>, facts: Vec<DependencyEdge>) -> RepositoryMapper {
    let mut mapper = RepositoryMapper::new();
    mapper
        .analyze_repository(&symbols, &facts)
        .expect("analysis should succeed");
    mapper
}

#[test]
fn document_round_trip() {
    let m = analyzed(
        vec![sym("a", "f.rs"), sym("b", "g.rs"), sym("c", "g.rs")],
        vec![fact("a", "b"), fact("b", "c"), fact("c", "b")],
    );
    let back = round_trip_check(&m).expect("round trip must succeed");
    assert_eq!(back.graph, m.graph);
    assert_eq!(back.insights, m.insights);
    assert_eq!(back.topological_order, m.topological_order);
    assert_eq!(back.cycles_present, m.cycles_present);
    assert_eq!(back.unresolved_references, m.unresolved_references);
    assert_eq!(back.invalid_records, m.invalid_records);
}

#[test]
fn document_field_names_are_stable() {
    let m = analyzed(vec![sym("a", "f.rs")], vec![]);
    let d = to_document(&m);
    let names: Vec<&str> = d.fields.iter().map(|f| f.name.as_str()).collect();
    assert_eq!(
        names,
        vec![
            "components",
            "edges",
            "cycles",
            "entry_points",
            "most_connected_components",
            "processing_order",
            "total_files",
            "total_components",
            "most_complex_files",
            "dependency_hotspots",
            "cycles_present",
            "unresolved_references",
            "invalid_records",
        ]
    );
}

#[test]
fn malformed_document_is_rejected() {
    let d = repo_mapper::doc::AnalysisDocument {
        fields: vec![DocField {
            name: "components".to_string(),
            value: DocValue::Groups(vec![]),
        }],
    };
    assert!(from_document(&d).is_none());
}

#[test]
fn parsed_document_preserves_edges() {
    let m = analyzed(
        vec![sym("a", "f.rs"), sym("b", "f.rs")],
        vec![fact("a", "b"), fact("a", "b")],
    );
    let d = to_document(&m);
    let back = from_document(&d).expect("canonical document must parse");
    assert_eq!(back.graph.edges.len(), 2);
    assert_eq!(back.graph.edge_indices, m.graph.edge_indices);
}

#[test]
fn renders_decimal_numbers() {
    assert_eq!(render_usize(0), "0");
    assert_eq!(render_usize(7), "7");
    assert_eq!(render_usize(10), "10");
    assert_eq!(render_usize(12345), "12345");
}

#[test]
fn renders_single_component_map() {
    let m = analyzed(vec![sym("a", "f.rs")], vec![]);
    let expected = "Repository Structure\n===================\n\n\
Components: 1 | Entry Points: 1 | Cycles: 0\n\n\
f.rs\n  pub fn a (deps: 0, used by: 0)\n\n\
Key Insights\n------------\n\
Entry Points:\n  a (f.rs)\n\n\
Processing Order (dependencies first):\n  1. a\n";
    assert_eq!(m.generate_repository_map(), expected);
}

#[test]
fn renders_truncated_processing_order() {
    let names: Vec<String> = (1..=12).map(|i| format!("n{:02}", i)).collect();
    let symbols: Vec<SymbolRecord> = names.iter().map(|n| sym(n, "f.rs")).collect();
    let m = analyzed(symbols, vec![]);
    let map = m.generate_repository_map();
    assert!(map.contains("Processing Order (dependencies first):\n"));
    assert!(map.contains("  1. n01\n"));
    assert!(map.contains("  10. n10\n"));
    assert!(map.contains("  ... and 2 more\n"));
    assert!(!map.contains("  11. n11"));
}

#[test]
fn renders_most_connected_section() {
    let m = analyzed(
        vec![sym("a", "f.rs"), sym("b", "f.rs")],
        vec![fact("a", "b")],
    );
    let map = m.generate_repository_map();
    assert!(map.contains("Most Connected:\n  1. a (f.rs)\n  2. b (f.rs)\n"));
    assert!(map.contains("Components: 2 | Entry Points: 1 | Cycles: 0\n"));
}

#[test]
fn lexicographic_order_on_ids() {
    assert!(str_lt("ab", "abc"));
    assert!(str_lt("Zoo", "ant"));
    assert!(!str_lt("same", "same"));
    assert!(str_le("same", "same"));
    assert!(str_eq("same", "same"));
    assert!(!str_eq("same", "sane"));
}

#[test]
fn sorts_ids_ascending() {
    let v = vec![
        "pear".to_string(),
        "apple".to_string(),
        "apple".to_string(),
        "fig".to_string(),
    ];
    assert_eq!(
        sort_ids(v),
        vec![
            "apple".to_string(),
            "apple".to_string(),
            "fig".to_string(),
            "pear".to_string(),
        ]
    );
}
