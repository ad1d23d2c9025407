//! The data model of the engine: code components, dependency edges, and the
//! symbol records handed in by the extraction collaborator.

use vstd::prelude::*;

verus! {

/// The kind of a code component.
#[derive(Clone, Copy, Debug, PartialEq, Eq, Structural)]
pub enum ComponentType {
    Function,
    Method,
    Class,
    Module,
    Interface,
}

/// The declared visibility of a code component.
#[derive(Clone, Copy, Debug, PartialEq, Eq, Structural)]
pub enum Visibility {
    Public,
    Private,
    Protected,
    Internal,
}

/// The syntactic nature of a dependency edge.
#[derive(Clone, Copy, Debug, PartialEq, Eq, Structural)]
pub enum EdgeType {
    FunctionCall,
    ClassInheritance,
    ModuleImport,
    FieldAccess,
    MethodCall,
}

/// A code component (function, method, class, module or interface) with its
/// resolved dependency lists.
#[derive(Debug, PartialEq)]
pub struct CodeComponent {
    pub id: String,
    pub name: String,
    pub component_type: ComponentType,
    pub file_path: String,
    pub start_line: usize,
    pub end_line: usize,
    pub visibility: Visibility,
    /// Ids of components this one depends on, in discovery order, duplicates
    /// removed.
    pub dependencies: Vec<String>,
    /// Ids of components that depend on this one, in discovery order,
    /// duplicates removed.
    pub dependents: Vec<String>,
    pub complexity_score: u32,
}

/// The mathematical model of a component: every string as its character
/// sequence, every count as an unbounded integer.
pub ghost struct ComponentModel {
    pub id: Seq<char>,
    pub name: Seq<char>,
    pub component_type: ComponentType,
    pub file_path: Seq<char>,
    pub start_line: int,
    pub end_line: int,
    pub visibility: Visibility,
    pub dependencies: Seq<Seq<char>>,
    pub dependents: Seq<Seq<char>>,
    pub complexity_score: u32,
}

impl View for CodeComponent {
    type V = ComponentModel;

    open spec fn view(&self) -> ComponentModel {
        ComponentModel {
            id: self.id@,
            name: self.name@,
            component_type: self.component_type,
            file_path: self.file_path@,
            start_line: self.start_line as int,
            end_line: self.end_line as int,
            visibility: self.visibility,
            dependencies: self.dependencies.deep_view(),
            dependents: self.dependents.deep_view(),
            complexity_score: self.complexity_score,
        }
    }
}

impl DeepView for CodeComponent {
    type V = ComponentModel;

    open spec fn deep_view(&self) -> ComponentModel {
        self.view()
    }
}

/// A directed reference from one component to another. The same triple also
/// serves as a raw reference fact before it is resolved against the symbol
/// store.
#[derive(Debug, PartialEq)]
pub struct DependencyEdge {
    pub from: String,
    pub to: String,
    pub edge_type: EdgeType,
}

/// The model of an edge.
pub ghost struct EdgeModel {
    pub from: Seq<char>,
    pub to: Seq<char>,
    pub edge_type: EdgeType,
}

impl View for DependencyEdge {
    type V = EdgeModel;

    open spec fn view(&self) -> EdgeModel {
        EdgeModel { from: self.from@, to: self.to@, edge_type: self.edge_type }
    }
}

impl DeepView for DependencyEdge {
    type V = EdgeModel;

    open spec fn deep_view(&self) -> EdgeModel {
        self.view()
    }
}

/// A raw symbol record, as handed in by the extraction collaborator.
#[derive(Debug, PartialEq)]
pub struct SymbolRecord {
    pub id: String,
    pub name: String,
    pub component_type: ComponentType,
    pub file_path: String,
    pub start_line: usize,
    pub end_line: usize,
    pub visibility: Visibility,
    pub complexity_score: u32,
}

/// The model of a symbol record.
pub ghost struct SymbolModel {
    pub id: Seq<char>,
    pub name: Seq<char>,
    pub component_type: ComponentType,
    pub file_path: Seq<char>,
    pub start_line: int,
    pub end_line: int,
    pub visibility: Visibility,
    pub complexity_score: u32,
}

impl View for SymbolRecord {
    type V = SymbolModel;

    open spec fn view(&self) -> SymbolModel {
        SymbolModel {
            id: self.id@,
            name: self.name@,
            component_type: self.component_type,
            file_path: self.file_path@,
            start_line: self.start_line as int,
            end_line: self.end_line as int,
            visibility: self.visibility,
            complexity_score: self.complexity_score,
        }
    }
}

impl DeepView for SymbolRecord {
    type V = SymbolModel;

    open spec fn deep_view(&self) -> SymbolModel {
        self.view()
    }
}

impl SymbolModel {
    /// The component a fresh symbol record turns into: the record's fields,
    /// with empty dependency lists.
    pub open spec fn as_component(self) -> ComponentModel {
        ComponentModel {
            id: self.id,
            name: self.name,
            component_type: self.component_type,
            file_path: self.file_path,
            start_line: self.start_line,
            end_line: self.end_line,
            visibility: self.visibility,
            dependencies: Seq::empty(),
            dependents: Seq::empty(),
            complexity_score: self.complexity_score,
        }
    }
}

/// The one fatal error of analysis: two symbol records share an id but name
/// two different files, which would make the graph internally inconsistent.
#[derive(Debug, PartialEq)]
pub enum AnalysisError {
    DuplicateId { id: String },
}

/// A sequence holds no element twice.
pub open spec fn distinct_seq<A>(s: Seq<A>) -> bool {
    forall|i: int, j: int| 0 <= i < j < s.len() ==> s[i] != s[j]
}

} // verus!
