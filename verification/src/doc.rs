//! A self-describing structured document form of a finished analysis, and
//! the parser that takes it back. Serializing and re-parsing reproduces the
//! analysis — graph and insights alike — which is proved below.

use vstd::prelude::*;

use crate::component::{CodeComponent, ComponentModel, ComponentType, DependencyEdge, EdgeModel,
    EdgeType, Visibility};
use crate::graph::{find_id, DependencyGraph};
use crate::insights::{LayerModel, RepositoryInsights};
use crate::mapper::{MapperModel, RepositoryMapper};

verus! {

/// A scalar or a flat list of strings.
#[derive(Debug, PartialEq)]
pub enum DocAtom {
    Text(String),
    Number(u64),
    Flag(bool),
    TextList(Vec<String>),
}

/// A named atom inside a record.
#[derive(Debug, PartialEq)]
pub struct DocEntry {
    pub name: String,
    pub value: DocAtom,
}

/// A field value: an atom, a list of records, or a list of id groups.
#[derive(Debug, PartialEq)]
pub enum DocValue {
    Atom(DocAtom),
    Records(Vec<Vec<DocEntry>>),
    Groups(Vec<Vec<String>>),
}

/// A named top-level field.
#[derive(Debug, PartialEq)]
pub struct DocField {
    pub name: String,
    pub value: DocValue,
}

/// The whole document: named fields in a stable order.
#[derive(Debug, PartialEq)]
pub struct AnalysisDocument {
    pub fields: Vec<DocField>,
}

pub ghost enum AtomModel {
    Text(Seq<char>),
    Number(int),
    Flag(bool),
    TextList(Seq<Seq<char>>),
}

#[verifier::ext_equal]
pub ghost struct EntryModel {
    pub name: Seq<char>,
    pub value: AtomModel,
}

pub ghost enum ValueModel {
    Atom(AtomModel),
    Records(Seq<Seq<EntryModel>>),
    Groups(Seq<Seq<Seq<char>>>),
}

#[verifier::ext_equal]
pub ghost struct FieldModel {
    pub name: Seq<char>,
    pub value: ValueModel,
}

#[verifier::ext_equal]
pub ghost struct DocumentModel {
    pub fields: Seq<FieldModel>,
}

impl View for DocAtom {
    type V = AtomModel;

    open spec fn view(&self) -> AtomModel {
        match self {
            DocAtom::Text(s) => AtomModel::Text(s@),
            DocAtom::Number(n) => AtomModel::Number(*n as int),
            DocAtom::Flag(b) => AtomModel::Flag(*b),
            DocAtom::TextList(v) => AtomModel::TextList(v.deep_view()),
        }
    }
}

impl View for DocEntry {
    type V = EntryModel;

    open spec fn view(&self) -> EntryModel {
        EntryModel { name: self.name@, value: self.value@ }
    }
}

impl DeepView for DocEntry {
    type V = EntryModel;

    open spec fn deep_view(&self) -> EntryModel {
        self.view()
    }
}

impl View for DocValue {
    type V = ValueModel;

    open spec fn view(&self) -> ValueModel {
        match self {
            DocValue::Atom(a) => ValueModel::Atom(a@),
            DocValue::Records(rs) => ValueModel::Records(rs.deep_view()),
            DocValue::Groups(gs) => ValueModel::Groups(gs.deep_view()),
        }
    }
}

impl View for DocField {
    type V = FieldModel;

    open spec fn view(&self) -> FieldModel {
        FieldModel { name: self.name@, value: self.value@ }
    }
}

impl DeepView for DocField {
    type V = FieldModel;

    open spec fn deep_view(&self) -> FieldModel {
        self.view()
    }
}

impl View for AnalysisDocument {
    type V = DocumentModel;

    open spec fn view(&self) -> DocumentModel {
        DocumentModel { fields: self.fields.deep_view() }
    }
}

/// The stable name of a component kind.
pub open spec fn kind_name(t: ComponentType) -> Seq<char> {
    match t {
        ComponentType::Function => "Function"@,
        ComponentType::Method => "Method"@,
        ComponentType::Class => "Class"@,
        ComponentType::Module => "Module"@,
        ComponentType::Interface => "Interface"@,
    }
}

/// The stable name of a visibility.
pub open spec fn vis_name(v: Visibility) -> Seq<char> {
    match v {
        Visibility::Public => "Public"@,
        Visibility::Private => "Private"@,
        Visibility::Protected => "Protected"@,
        Visibility::Internal => "Internal"@,
    }
}

/// The stable name of an edge type.
pub open spec fn edge_kind_name(t: EdgeType) -> Seq<char> {
    match t {
        EdgeType::FunctionCall => "FunctionCall"@,
        EdgeType::ClassInheritance => "ClassInheritance"@,
        EdgeType::ModuleImport => "ModuleImport"@,
        EdgeType::FieldAccess => "FieldAccess"@,
        EdgeType::MethodCall => "MethodCall"@,
    }
}

/// The record a component serializes to.
pub open spec fn comp_record(c: ComponentModel) -> Seq<EntryModel> {
    seq![
        EntryModel { name: "id"@, value: AtomModel::Text(c.id) },
        EntryModel { name: "name"@, value: AtomModel::Text(c.name) },
        EntryModel { name: "kind"@, value: AtomModel::Text(kind_name(c.component_type)) },
        EntryModel { name: "file_path"@, value: AtomModel::Text(c.file_path) },
        EntryModel { name: "start_line"@, value: AtomModel::Number(c.start_line) },
        EntryModel { name: "end_line"@, value: AtomModel::Number(c.end_line) },
        EntryModel { name: "visibility"@, value: AtomModel::Text(vis_name(c.visibility)) },
        EntryModel { name: "dependencies"@, value: AtomModel::TextList(c.dependencies) },
        EntryModel { name: "dependents"@, value: AtomModel::TextList(c.dependents) },
        EntryModel {
            name: "complexity_score"@,
            value: AtomModel::Number(c.complexity_score as int),
        },
    ]
}

/// The record an edge serializes to.
pub open spec fn edge_record(e: EdgeModel) -> Seq<EntryModel> {
    seq![
        EntryModel { name: "from"@, value: AtomModel::Text(e.from) },
        EntryModel { name: "to"@, value: AtomModel::Text(e.to) },
        EntryModel { name: "edge_type"@, value: AtomModel::Text(edge_kind_name(e.edge_type)) },
    ]
}

pub open spec fn comp_records(comps: Seq<ComponentModel>) -> Seq<Seq<EntryModel>> {
    Seq::new(comps.len(), |i: int| comp_record(comps[i]))
}

pub open spec fn edge_records(edges: Seq<EdgeModel>) -> Seq<Seq<EntryModel>> {
    Seq::new(edges.len(), |i: int| edge_record(edges[i]))
}

/// The document a finished analysis serializes to.
pub open spec fn doc_of(m: MapperModel) -> DocumentModel {
    DocumentModel {
        fields: seq![
            FieldModel {
                name: "components"@,
                value: ValueModel::Records(comp_records(m.graph.components)),
            },
            FieldModel { name: "edges"@, value: ValueModel::Records(edge_records(m.graph.edges)) },
            FieldModel { name: "cycles"@, value: ValueModel::Groups(m.graph.cycles) },
            FieldModel {
                name: "entry_points"@,
                value: ValueModel::Atom(AtomModel::TextList(m.insights.entry_points)),
            },
            FieldModel {
                name: "most_connected_components"@,
                value: ValueModel::Atom(
                    AtomModel::TextList(m.insights.most_connected_components),
                ),
            },
            FieldModel {
                name: "processing_order"@,
                value: ValueModel::Atom(AtomModel::TextList(m.topological_order)),
            },
            FieldModel {
                name: "total_files"@,
                value: ValueModel::Atom(AtomModel::Number(m.insights.total_files)),
            },
            FieldModel {
                name: "total_components"@,
                value: ValueModel::Atom(AtomModel::Number(m.insights.total_components)),
            },
            FieldModel {
                name: "most_complex_files"@,
                value: ValueModel::Atom(AtomModel::TextList(m.insights.most_complex_files)),
            },
            FieldModel {
                name: "dependency_hotspots"@,
                value: ValueModel::Atom(AtomModel::TextList(m.insights.dependency_hotspots)),
            },
            FieldModel {
                name: "cycles_present"@,
                value: ValueModel::Atom(AtomModel::Flag(m.cycles_present)),
            },
            FieldModel {
                name: "unresolved_references"@,
                value: ValueModel::Atom(AtomModel::Number(m.unresolved_references)),
            },
            FieldModel {
                name: "invalid_records"@,
                value: ValueModel::Atom(AtomModel::Number(m.invalid_records)),
            },
        ],
    }
}

/// Serializes one component.
fn component_to_record(c: &CodeComponent) -> (r: Vec<DocEntry>)
    ensures
        r.deep_view() == comp_record(c@),
{
    let kind = match c.component_type {
        ComponentType::Function => "Function",
        ComponentType::Method => "Method",
        ComponentType::Class => "Class",
        ComponentType::Module => "Module",
        ComponentType::Interface => "Interface",
    };
    let vis = match c.visibility {
        Visibility::Public => "Public",
        Visibility::Private => "Private",
        Visibility::Protected => "Protected",
        Visibility::Internal => "Internal",
    };
    let mut r: Vec<DocEntry> = Vec::new();
    r.push(DocEntry { name: text_of("id"), value: DocAtom::Text(c.id.clone()) });
    r.push(DocEntry { name: text_of("name"), value: DocAtom::Text(c.name.clone()) });
    r.push(DocEntry { name: text_of("kind"), value: DocAtom::Text(text_of(kind)) });
    r.push(DocEntry { name: text_of("file_path"), value: DocAtom::Text(c.file_path.clone()) });
    r.push(
        DocEntry { name: text_of("start_line"), value: DocAtom::Number(c.start_line as u64) },
    );
    r.push(DocEntry { name: text_of("end_line"), value: DocAtom::Number(c.end_line as u64) });
    r.push(DocEntry { name: text_of("visibility"), value: DocAtom::Text(text_of(vis)) });
    r.push(
        DocEntry {
            name: text_of("dependencies"),
            value: DocAtom::TextList(crate::responses::clone_ids(&c.dependencies)),
        },
    );
    r.push(
        DocEntry {
            name: text_of("dependents"),
            value: DocAtom::TextList(crate::responses::clone_ids(&c.dependents)),
        },
    );
    r.push(
        DocEntry {
            name: text_of("complexity_score"),
            value: DocAtom::Number(c.complexity_score as u64),
        },
    );
    proof {
        assert(r.deep_view() =~= comp_record(c@));
    }
    r
}

/// Serializes one edge.
fn edge_to_record(e: &DependencyEdge) -> (r: Vec<DocEntry>)
    ensures
        r.deep_view() == edge_record(e@),
{
    let kind = match e.edge_type {
        EdgeType::FunctionCall => "FunctionCall",
        EdgeType::ClassInheritance => "ClassInheritance",
        EdgeType::ModuleImport => "ModuleImport",
        EdgeType::FieldAccess => "FieldAccess",
        EdgeType::MethodCall => "MethodCall",
    };
    let mut r: Vec<DocEntry> = Vec::new();
    r.push(DocEntry { name: text_of("from"), value: DocAtom::Text(e.from.clone()) });
    r.push(DocEntry { name: text_of("to"), value: DocAtom::Text(e.to.clone()) });
    r.push(DocEntry { name: text_of("edge_type"), value: DocAtom::Text(text_of(kind)) });
    proof {
        assert(r.deep_view() =~= edge_record(e@));
    }
    r
}

/// An owned copy of a piece of text.
fn text_of(s: &str) -> (r: String)
    ensures
        r@ == s@,
{
    s.to_owned()
}

/// Copies a list of id groups.
fn clone_groups(v: &Vec<Vec<String>>) -> (r: Vec<Vec<String>>)
    ensures
        r.deep_view() == v.deep_view(),
{
    let mut r: Vec<Vec<String>> = Vec::new();
    let mut i: usize = 0;
    proof {
        assert(r.deep_view() =~= v.deep_view().take(0int));
    }
    while i < v.len()
        invariant
            0 <= i <= v.len(),
            r.deep_view() == v.deep_view().take(i as int),
        decreases v.len() - i,
    {
        let ghost pre = r.deep_view();
        let g = crate::responses::clone_ids(&v[i]);
        let ghost gdv = g.deep_view();
        r.push(g);
        proof {
            assert(v.deep_view()[i as int] == v@[i as int].deep_view());
            assert(r.deep_view() =~= pre.push(gdv));
            assert(r.deep_view() =~= v.deep_view().take(i as int + 1));
        }
        i = i + 1;
    }
    proof {
        assert(v.deep_view().take(v@.len() as int) =~= v.deep_view());
    }
    r
}

/// Serializes a finished analysis into the structured document form, with
/// its stable field names.
pub fn to_document(m: &RepositoryMapper) -> (d: AnalysisDocument)
    ensures
        d@ == doc_of(m@),
{
    let mut comp_recs: Vec<Vec<DocEntry>> = Vec::new();
    let mut i: usize = 0;
    proof {
        assert(comp_recs.deep_view() =~= comp_records(m@.graph.components).take(0int));
    }
    while i < m.graph.components.len()
        invariant
            0 <= i <= m.graph.components.len(),
            comp_recs.deep_view() == comp_records(m@.graph.components).take(i as int),
        decreases m.graph.components.len() - i,
    {
        proof {
            assert(m@.graph.components[i as int] == m.graph.components@[i as int]@);
        }
        let rec = component_to_record(&m.graph.components[i]);
        let ghost pre = comp_recs.deep_view();
        let ghost rdv = rec.deep_view();
        comp_recs.push(rec);
        proof {
            assert(comp_recs.deep_view() =~= pre.push(rdv));
            assert(comp_recs.deep_view() =~= comp_records(m@.graph.components).take(i as int + 1));
        }
        i = i + 1;
    }
    let mut edge_recs: Vec<Vec<DocEntry>> = Vec::new();
    let mut k: usize = 0;
    proof {
        assert(comp_recs.deep_view() =~= comp_records(m@.graph.components));
        assert(edge_recs.deep_view() =~= edge_records(m@.graph.edges).take(0int));
    }
    while k < m.graph.edges.len()
        invariant
            0 <= k <= m.graph.edges.len(),
            edge_recs.deep_view() == edge_records(m@.graph.edges).take(k as int),
        decreases m.graph.edges.len() - k,
    {
        proof {
            assert(m@.graph.edges[k as int] == m.graph.edges@[k as int]@);
        }
        let rec = edge_to_record(&m.graph.edges[k]);
        let ghost pre = edge_recs.deep_view();
        let ghost rdv = rec.deep_view();
        edge_recs.push(rec);
        proof {
            assert(edge_recs.deep_view() =~= pre.push(rdv));
            assert(edge_recs.deep_view() =~= edge_records(m@.graph.edges).take(k as int + 1));
        }
        k = k + 1;
    }
    proof {
        assert(edge_recs.deep_view() =~= edge_records(m@.graph.edges));
    }
    let mut fields: Vec<DocField> = Vec::new();
    fields.push(DocField { name: text_of("components"), value: DocValue::Records(comp_recs) });
    fields.push(DocField { name: text_of("edges"), value: DocValue::Records(edge_recs) });
    fields.push(
        DocField { name: text_of("cycles"), value: DocValue::Groups(clone_groups(&m.graph.cycles)) },
    );
    fields.push(
        DocField {
            name: text_of("entry_points"),
            value: DocValue::Atom(
                DocAtom::TextList(crate::responses::clone_ids(&m.insights.entry_points)),
            ),
        },
    );
    fields.push(
        DocField {
            name: text_of("most_connected_components"),
            value: DocValue::Atom(
                DocAtom::TextList(
                    crate::responses::clone_ids(&m.insights.most_connected_components),
                ),
            ),
        },
    );
    fields.push(
        DocField {
            name: text_of("processing_order"),
            value: DocValue::Atom(
                DocAtom::TextList(crate::responses::clone_ids(&m.topological_order)),
            ),
        },
    );
    fields.push(
        DocField {
            name: text_of("total_files"),
            value: DocValue::Atom(DocAtom::Number(m.insights.total_files as u64)),
        },
    );
    fields.push(
        DocField {
            name: text_of("total_components"),
            value: DocValue::Atom(DocAtom::Number(m.insights.total_components as u64)),
        },
    );
    fields.push(
        DocField {
            name: text_of("most_complex_files"),
            value: DocValue::Atom(
                DocAtom::TextList(crate::responses::clone_ids(&m.insights.most_complex_files)),
            ),
        },
    );
    fields.push(
        DocField {
            name: text_of("dependency_hotspots"),
            value: DocValue::Atom(
                DocAtom::TextList(crate::responses::clone_ids(&m.insights.dependency_hotspots)),
            ),
        },
    );
    fields.push(
        DocField {
            name: text_of("cycles_present"),
            value: DocValue::Atom(DocAtom::Flag(m.cycles_present)),
        },
    );
    fields.push(
        DocField {
            name: text_of("unresolved_references"),
            value: DocValue::Atom(DocAtom::Number(m.unresolved_references as u64)),
        },
    );
    fields.push(
        DocField {
            name: text_of("invalid_records"),
            value: DocValue::Atom(DocAtom::Number(m.invalid_records as u64)),
        },
    );
    let d = AnalysisDocument { fields };
    proof {
        assert(d@ =~= doc_of(m@));
    }
    d
}


/// A model whose counters and line numbers fit the machine's integer sizes,
/// as every view of a real analyzer does.
pub open spec fn bounded_component(c: ComponentModel) -> bool {
    &&& 0 <= c.start_line <= usize::MAX as int
    &&& 0 <= c.end_line <= usize::MAX as int
}

pub open spec fn bounded_model(m: MapperModel) -> bool {
    &&& forall|i: int|
        0 <= i < m.graph.components.len() ==> bounded_component(#[trigger] m.graph.components[i])
    &&& 0 <= m.insights.total_files <= usize::MAX as int
    &&& 0 <= m.insights.total_components <= usize::MAX as int
    &&& 0 <= m.unresolved_references <= usize::MAX as int
    &&& 0 <= m.invalid_records <= usize::MAX as int
}

/// Reads a named text entry of a record.
fn entry_text<'a>(rec: &'a Vec<DocEntry>, i: usize, name: &str) -> (r: Option<&'a String>)
    requires
        i < rec.len(),
    ensures
        match r {
            Some(s) => rec.deep_view()[i as int] == (EntryModel {
                name: name@,
                value: AtomModel::Text(s@),
            }),
            None => forall|t: Seq<char>|
                rec.deep_view()[i as int] != (EntryModel {
                    name: name@,
                    value: AtomModel::Text(t),
                }),
        },
{
    proof {
        assert(rec.deep_view()[i as int] == rec@[i as int]@);
    }
    let e = &rec[i];
    if crate::strid::str_eq(e.name.as_str(), name) {
        match &e.value {
            DocAtom::Text(s) => Some(s),
            _ => None,
        }
    } else {
        None
    }
}

/// Reads a named number entry of a record.
fn entry_number(rec: &Vec<DocEntry>, i: usize, name: &str) -> (r: Option<u64>)
    requires
        i < rec.len(),
    ensures
        match r {
            Some(v) => rec.deep_view()[i as int] == (EntryModel {
                name: name@,
                value: AtomModel::Number(v as int),
            }),
            None => forall|t: int|
                rec.deep_view()[i as int] != (EntryModel {
                    name: name@,
                    value: AtomModel::Number(t),
                }),
        },
{
    proof {
        assert(rec.deep_view()[i as int] == rec@[i as int]@);
    }
    let e = &rec[i];
    if crate::strid::str_eq(e.name.as_str(), name) {
        match &e.value {
            DocAtom::Number(v) => Some(*v),
            _ => None,
        }
    } else {
        None
    }
}

/// Reads a named id-list entry of a record.
fn entry_textlist<'a>(rec: &'a Vec<DocEntry>, i: usize, name: &str) -> (r: Option<&'a Vec<String>>)
    requires
        i < rec.len(),
    ensures
        match r {
            Some(v) => rec.deep_view()[i as int] == (EntryModel {
                name: name@,
                value: AtomModel::TextList(v.deep_view()),
            }),
            None => forall|t: Seq<Seq<char>>|
                rec.deep_view()[i as int] != (EntryModel {
                    name: name@,
                    value: AtomModel::TextList(t),
                }),
        },
{
    proof {
        assert(rec.deep_view()[i as int] == rec@[i as int]@);
    }
    let e = &rec[i];
    if crate::strid::str_eq(e.name.as_str(), name) {
        match &e.value {
            DocAtom::TextList(v) => Some(v),
            _ => None,
        }
    } else {
        None
    }
}

/// Parses one component record back into a component. Fails exactly on
/// records no in-bounds component serializes to.
fn parse_component(rec: &Vec<DocEntry>) -> (r: Option<CodeComponent>)
    ensures
        match r {
            Some(c) => comp_record(c@) == rec.deep_view(),
            None => forall|cm: ComponentModel|
                bounded_component(cm) ==> #[trigger] comp_record(cm) != rec.deep_view(),
        },
{
    if rec.len() != 10 {
        proof {
            assert forall|cm: ComponentModel| bounded_component(cm) implies #[trigger] comp_record(
                cm,
            ) != rec.deep_view() by {
                assert(comp_record(cm).len() == 10);
            }
        }
        return None;
    }
    let id = entry_text(rec, 0, "id");
    let name = entry_text(rec, 1, "name");
    let kind = entry_text(rec, 2, "kind");
    let file_path = entry_text(rec, 3, "file_path");
    let start_line = entry_number(rec, 4, "start_line");
    let end_line = entry_number(rec, 5, "end_line");
    let vis = entry_text(rec, 6, "visibility");
    let deps = entry_textlist(rec, 7, "dependencies");
    let dependents = entry_textlist(rec, 8, "dependents");
    let score = entry_number(rec, 9, "complexity_score");
    match (id, name, kind, file_path, start_line, end_line, vis, deps, dependents, score) {
        (
            Some(id),
            Some(name),
            Some(kind),
            Some(file_path),
            Some(start_line),
            Some(end_line),
            Some(vis),
            Some(deps),
            Some(dependents),
            Some(score),
        ) => {
            let component_type = if crate::strid::str_eq(kind.as_str(), "Function") {
                ComponentType::Function
            } else if crate::strid::str_eq(kind.as_str(), "Method") {
                ComponentType::Method
            } else if crate::strid::str_eq(kind.as_str(), "Class") {
                ComponentType::Class
            } else if crate::strid::str_eq(kind.as_str(), "Module") {
                ComponentType::Module
            } else if crate::strid::str_eq(kind.as_str(), "Interface") {
                ComponentType::Interface
            } else {
                proof {
                    assert forall|cm: ComponentModel| bounded_component(cm) implies #[trigger]
                        comp_record(cm) != rec.deep_view() by {
                        if comp_record(cm) == rec.deep_view() {
                            assert(rec.deep_view()[2int] == comp_record(cm)[2int]);
                        }
                    }
                }
                return None;
            };
            let visibility = if crate::strid::str_eq(vis.as_str(), "Public") {
                Visibility::Public
            } else if crate::strid::str_eq(vis.as_str(), "Private") {
                Visibility::Private
            } else if crate::strid::str_eq(vis.as_str(), "Protected") {
                Visibility::Protected
            } else if crate::strid::str_eq(vis.as_str(), "Internal") {
                Visibility::Internal
            } else {
                proof {
                    assert forall|cm: ComponentModel| bounded_component(cm) implies #[trigger]
                        comp_record(cm) != rec.deep_view() by {
                        if comp_record(cm) == rec.deep_view() {
                            assert(rec.deep_view()[6int] == comp_record(cm)[6int]);
                        }
                    }
                }
                return None;
            };
            if start_line > usize::MAX as u64 || end_line > usize::MAX as u64 || score
                > u32::MAX as u64 {
                proof {
                    assert forall|cm: ComponentModel| bounded_component(cm) implies #[trigger]
                        comp_record(cm) != rec.deep_view() by {
                        if comp_record(cm) == rec.deep_view() {
                            assert(rec.deep_view()[4int] == comp_record(cm)[4int]);
                            assert(rec.deep_view()[5int] == comp_record(cm)[5int]);
                            assert(rec.deep_view()[9int] == comp_record(cm)[9int]);
                        }
                    }
                }
                return None;
            }
            let c = CodeComponent {
                id: id.clone(),
                name: name.clone(),
                component_type,
                file_path: file_path.clone(),
                start_line: start_line as usize,
                end_line: end_line as usize,
                visibility,
                dependencies: crate::responses::clone_ids(deps),
                dependents: crate::responses::clone_ids(dependents),
                complexity_score: score as u32,
            };
            proof {
                assert(comp_record(c@) =~= rec.deep_view());
            }
            Some(c)
        },
        _ => {
            proof {
                assert forall|cm: ComponentModel| bounded_component(cm) implies #[trigger]
                    comp_record(cm) != rec.deep_view() by {
                    if comp_record(cm) == rec.deep_view() {
                        assert(rec.deep_view()[0int] == comp_record(cm)[0int]);
                        assert(rec.deep_view()[1int] == comp_record(cm)[1int]);
                        assert(rec.deep_view()[2int] == comp_record(cm)[2int]);
                        assert(rec.deep_view()[3int] == comp_record(cm)[3int]);
                        assert(rec.deep_view()[4int] == comp_record(cm)[4int]);
                        assert(rec.deep_view()[5int] == comp_record(cm)[5int]);
                        assert(rec.deep_view()[6int] == comp_record(cm)[6int]);
                        assert(rec.deep_view()[7int] == comp_record(cm)[7int]);
                        assert(rec.deep_view()[8int] == comp_record(cm)[8int]);
                        assert(rec.deep_view()[9int] == comp_record(cm)[9int]);
                    }
                }
            }
            None
        },
    }
}

/// Parses one edge record back into an edge. Fails exactly on records no
/// edge serializes to.
fn parse_edge(rec: &Vec<DocEntry>) -> (r: Option<DependencyEdge>)
    ensures
        match r {
            Some(e) => edge_record(e@) == rec.deep_view(),
            None => forall|em: EdgeModel| #[trigger] edge_record(em) != rec.deep_view(),
        },
{
    if rec.len() != 3 {
        proof {
            assert forall|em: EdgeModel| #[trigger] edge_record(em) != rec.deep_view() by {
                assert(edge_record(em).len() == 3);
            }
        }
        return None;
    }
    let from = entry_text(rec, 0, "from");
    let to = entry_text(rec, 1, "to");
    let kind = entry_text(rec, 2, "edge_type");
    match (from, to, kind) {
        (Some(from), Some(to), Some(kind)) => {
            let edge_type = if crate::strid::str_eq(kind.as_str(), "FunctionCall") {
                EdgeType::FunctionCall
            } else if crate::strid::str_eq(kind.as_str(), "ClassInheritance") {
                EdgeType::ClassInheritance
            } else if crate::strid::str_eq(kind.as_str(), "ModuleImport") {
                EdgeType::ModuleImport
            } else if crate::strid::str_eq(kind.as_str(), "FieldAccess") {
                EdgeType::FieldAccess
            } else if crate::strid::str_eq(kind.as_str(), "MethodCall") {
                EdgeType::MethodCall
            } else {
                proof {
                    assert forall|em: EdgeModel| #[trigger] edge_record(em)
                        != rec.deep_view() by {
                        if edge_record(em) == rec.deep_view() {
                            assert(rec.deep_view()[2int] == edge_record(em)[2int]);
                        }
                    }
                }
                return None;
            };
            let e = DependencyEdge { from: from.clone(), to: to.clone(), edge_type };
            proof {
                assert(edge_record(e@) =~= rec.deep_view());
            }
            Some(e)
        },
        _ => {
            proof {
                assert forall|em: EdgeModel| #[trigger] edge_record(em) != rec.deep_view() by {
                    if edge_record(em) == rec.deep_view() {
                        assert(rec.deep_view()[0int] == edge_record(em)[0int]);
                        assert(rec.deep_view()[1int] == edge_record(em)[1int]);
                        assert(rec.deep_view()[2int] == edge_record(em)[2int]);
                    }
                }
            }
            None
        },
    }
}


/// Reads a named record-list field.
fn field_records<'a>(d: &'a AnalysisDocument, i: usize, name: &str) -> (r: Option<&'a Vec<
    Vec<DocEntry>,
>>)
    requires
        i < d.fields.len(),
    ensures
        match r {
            Some(v) => d@.fields[i as int] == (FieldModel {
                name: name@,
                value: ValueModel::Records(v.deep_view()),
            }),
            None => forall|t: Seq<Seq<EntryModel>>|
                d@.fields[i as int] != (FieldModel { name: name@, value: ValueModel::Records(t) }),
        },
{
    proof {
        assert(d@.fields[i as int] == d.fields@[i as int]@);
    }
    let f = &d.fields[i];
    if crate::strid::str_eq(f.name.as_str(), name) {
        match &f.value {
            DocValue::Records(v) => Some(v),
            _ => None,
        }
    } else {
        None
    }
}

/// Reads a named group-list field.
fn field_groups<'a>(d: &'a AnalysisDocument, i: usize, name: &str) -> (r: Option<&'a Vec<
    Vec<String>,
>>)
    requires
        i < d.fields.len(),
    ensures
        match r {
            Some(v) => d@.fields[i as int] == (FieldModel {
                name: name@,
                value: ValueModel::Groups(v.deep_view()),
            }),
            None => forall|t: Seq<Seq<Seq<char>>>|
                d@.fields[i as int] != (FieldModel { name: name@, value: ValueModel::Groups(t) }),
        },
{
    proof {
        assert(d@.fields[i as int] == d.fields@[i as int]@);
    }
    let f = &d.fields[i];
    if crate::strid::str_eq(f.name.as_str(), name) {
        match &f.value {
            DocValue::Groups(v) => Some(v),
            _ => None,
        }
    } else {
        None
    }
}

/// Reads a named id-list field.
fn field_textlist<'a>(d: &'a AnalysisDocument, i: usize, name: &str) -> (r: Option<&'a Vec<
    String,
>>)
    requires
        i < d.fields.len(),
    ensures
        match r {
            Some(v) => d@.fields[i as int] == (FieldModel {
                name: name@,
                value: ValueModel::Atom(AtomModel::TextList(v.deep_view())),
            }),
            None => forall|t: Seq<Seq<char>>|
                d@.fields[i as int] != (FieldModel {
                    name: name@,
                    value: ValueModel::Atom(AtomModel::TextList(t)),
                }),
        },
{
    proof {
        assert(d@.fields[i as int] == d.fields@[i as int]@);
    }
    let f = &d.fields[i];
    if crate::strid::str_eq(f.name.as_str(), name) {
        match &f.value {
            DocValue::Atom(DocAtom::TextList(v)) => Some(v),
            _ => None,
        }
    } else {
        None
    }
}

/// Reads a named number field.
fn field_number(d: &AnalysisDocument, i: usize, name: &str) -> (r: Option<u64>)
    requires
        i < d.fields.len(),
    ensures
        match r {
            Some(v) => d@.fields[i as int] == (FieldModel {
                name: name@,
                value: ValueModel::Atom(AtomModel::Number(v as int)),
            }),
            None => forall|t: int|
                d@.fields[i as int] != (FieldModel {
                    name: name@,
                    value: ValueModel::Atom(AtomModel::Number(t)),
                }),
        },
{
    proof {
        assert(d@.fields[i as int] == d.fields@[i as int]@);
    }
    let f = &d.fields[i];
    if crate::strid::str_eq(f.name.as_str(), name) {
        match &f.value {
            DocValue::Atom(DocAtom::Number(v)) => Some(*v),
            _ => None,
        }
    } else {
        None
    }
}

/// Reads a named flag field.
fn field_flag(d: &AnalysisDocument, i: usize, name: &str) -> (r: Option<bool>)
    requires
        i < d.fields.len(),
    ensures
        match r {
            Some(v) => d@.fields[i as int] == (FieldModel {
                name: name@,
                value: ValueModel::Atom(AtomModel::Flag(v)),
            }),
            None => forall|t: bool|
                d@.fields[i as int] != (FieldModel {
                    name: name@,
                    value: ValueModel::Atom(AtomModel::Flag(t)),
                }),
        },
{
    proof {
        assert(d@.fields[i as int] == d.fields@[i as int]@);
    }
    let f = &d.fields[i];
    if crate::strid::str_eq(f.name.as_str(), name) {
        match &f.value {
            DocValue::Atom(DocAtom::Flag(v)) => Some(*v),
            _ => None,
        }
    } else {
        None
    }
}

/// Two components with the same record are the same component.
proof fn lemma_comp_record_injective(a: ComponentModel, b: ComponentModel)
    requires
        comp_record(a) == comp_record(b),
    ensures
        a == b,
{
    broadcast use vstd::string::group_string_axioms;

    reveal_strlit("Function");
    reveal_strlit("Method");
    reveal_strlit("Class");
    reveal_strlit("Module");
    reveal_strlit("Interface");
    reveal_strlit("Public");
    reveal_strlit("Private");
    reveal_strlit("Protected");
    reveal_strlit("Internal");
    assert(comp_record(a)[0int] == comp_record(b)[0int]);
    assert(comp_record(a)[1int] == comp_record(b)[1int]);
    assert(comp_record(a)[2int] == comp_record(b)[2int]);
    assert(comp_record(a)[3int] == comp_record(b)[3int]);
    assert(comp_record(a)[4int] == comp_record(b)[4int]);
    assert(comp_record(a)[5int] == comp_record(b)[5int]);
    assert(comp_record(a)[6int] == comp_record(b)[6int]);
    assert(comp_record(a)[7int] == comp_record(b)[7int]);
    assert(comp_record(a)[8int] == comp_record(b)[8int]);
    assert(comp_record(a)[9int] == comp_record(b)[9int]);
    assert(a.id == b.id);
    assert(a.name == b.name);
    assert(kind_name(a.component_type) == kind_name(b.component_type));
    assert(a.file_path == b.file_path);
    assert(a.start_line == b.start_line);
    assert(a.end_line == b.end_line);
    assert(vis_name(a.visibility) == vis_name(b.visibility));
    assert(a.dependencies == b.dependencies);
    assert(a.dependents == b.dependents);
    assert(a.complexity_score == b.complexity_score);
    assert("Function"@[0] == 'F' && "Method"@[0] == 'M' && "Class"@[0] == 'C' && "Module"@[0]
        == 'M' && "Interface"@[0] == 'I');
    assert("Method"@[1] == 'e' && "Module"@[1] == 'o');
    assert("Public"@[0] == 'P' && "Private"@[0] == 'P' && "Protected"@[0] == 'P' && "Internal"@[0]
        == 'I');
    assert("Public"@[1] == 'u' && "Private"@[1] == 'r' && "Protected"@[1] == 'r');
    assert("Private"@[2] == 'i' && "Protected"@[2] == 'o');
    assert("Function"@ != "Method"@ && "Function"@ != "Class"@ && "Function"@ != "Module"@
        && "Function"@ != "Interface"@ && "Method"@ != "Class"@ && "Method"@ != "Module"@
        && "Method"@ != "Interface"@ && "Class"@ != "Module"@ && "Class"@ != "Interface"@
        && "Module"@ != "Interface"@);
    assert("Public"@ != "Private"@ && "Public"@ != "Protected"@ && "Public"@ != "Internal"@
        && "Private"@ != "Protected"@ && "Private"@ != "Internal"@ && "Protected"@
        != "Internal"@);
    assert(a.component_type == b.component_type);
    assert(a.visibility == b.visibility);
    assert(a =~= b);
}

/// Two edges with the same record are the same edge.
proof fn lemma_edge_record_injective(a: EdgeModel, b: EdgeModel)
    requires
        edge_record(a) == edge_record(b),
    ensures
        a == b,
{
    broadcast use vstd::string::group_string_axioms;

    reveal_strlit("FunctionCall");
    reveal_strlit("ClassInheritance");
    reveal_strlit("ModuleImport");
    reveal_strlit("FieldAccess");
    reveal_strlit("MethodCall");
    assert(edge_record(a)[0int] == edge_record(b)[0int]);
    assert(edge_record(a)[1int] == edge_record(b)[1int]);
    assert(edge_record(a)[2int] == edge_record(b)[2int]);
    assert(a.from == b.from);
    assert(a.to == b.to);
    assert(edge_kind_name(a.edge_type) == edge_kind_name(b.edge_type));
    assert("FunctionCall"@[0] == 'F' && "ClassInheritance"@[0] == 'C' && "ModuleImport"@[0]
        == 'M' && "FieldAccess"@[0] == 'F' && "MethodCall"@[0] == 'M');
    assert("FunctionCall"@[1] == 'u' && "FieldAccess"@[1] == 'i');
    assert("ModuleImport"@[1] == 'o' && "MethodCall"@[1] == 'e');
    assert("FunctionCall"@ != "ClassInheritance"@ && "FunctionCall"@ != "ModuleImport"@
        && "FunctionCall"@ != "FieldAccess"@ && "FunctionCall"@ != "MethodCall"@
        && "ClassInheritance"@ != "ModuleImport"@ && "ClassInheritance"@ != "FieldAccess"@
        && "ClassInheritance"@ != "MethodCall"@ && "ModuleImport"@ != "FieldAccess"@
        && "ModuleImport"@ != "MethodCall"@ && "FieldAccess"@ != "MethodCall"@);
    assert(a.edge_type == b.edge_type);
    assert(a =~= b);
}

/// Component lists with the same records are the same list.
proof fn lemma_comp_records_injective(a: Seq<ComponentModel>, b: Seq<ComponentModel>)
    requires
        comp_records(a) == comp_records(b),
    ensures
        a == b,
{
    assert(comp_records(a).len() == a.len());
    assert(comp_records(b).len() == b.len());
    assert(a.len() == b.len());
    assert forall|i: int| 0 <= i < a.len() implies a[i] == b[i] by {
        assert(comp_records(a)[i] == comp_records(b)[i]);
        lemma_comp_record_injective(a[i], b[i]);
    }
    assert(a =~= b);
}

/// Edge lists with the same records are the same list.
proof fn lemma_edge_records_injective(a: Seq<EdgeModel>, b: Seq<EdgeModel>)
    requires
        edge_records(a) == edge_records(b),
    ensures
        a == b,
{
    assert(edge_records(a).len() == a.len());
    assert(edge_records(b).len() == b.len());
    assert(a.len() == b.len());
    assert forall|i: int| 0 <= i < a.len() implies a[i] == b[i] by {
        assert(edge_records(a)[i] == edge_records(b)[i]);
        lemma_edge_record_injective(a[i], b[i]);
    }
    assert(a =~= b);
}

/// In a store with unique ids, looking an id up finds its own component.
pub proof fn lemma_find_unique(comps: Seq<ComponentModel>, u: int)
    requires
        0 <= u < comps.len(),
        forall|i: int, j: int| 0 <= i < j < comps.len() ==> comps[i].id != comps[j].id,
    ensures
        find_id(comps, comps[u].id) == Some(u),
{
    crate::graph::lemma_find_id_props(comps, comps[u].id);
    match find_id(comps, comps[u].id) {
        Some(j) => {
            if j != u {
                assert(comps[j].id == comps[u].id);
            }
        },
        None => {
            assert(comps[u].id == comps[u].id);
        },
    }
}


/// A model that some analyzer value can hold: a well-formed graph, machine
/// bounds respected, and no architectural layers (the pipeline never fills
/// them in).
pub open spec fn serializable(m: MapperModel) -> bool {
    &&& m.graph.wf()
    &&& bounded_model(m)
    &&& m.insights.architectural_layers == Seq::<LayerModel>::empty()
}

/// Parses the structured document form back into an analyzer. Every document
/// a serializable analyzer serializes to parses successfully, and whatever
/// parses serializes back to the very document it came from.
pub fn from_document(d: &AnalysisDocument) -> (r: Option<RepositoryMapper>)
    ensures
        r matches Some(m2) ==> {
            &&& doc_of(m2@) == d@
            &&& m2@.insights.architectural_layers == Seq::<LayerModel>::empty()
            &&& m2@.graph.edge_indices.len() == m2@.graph.edges.len()
            &&& forall|k: int|
                0 <= k < m2@.graph.edges.len() ==> find_id(
                    m2@.graph.components,
                    (#[trigger] m2@.graph.edges[k]).from,
                ) == Some(m2@.graph.edge_indices[k].0) && find_id(
                    m2@.graph.components,
                    m2@.graph.edges[k].to,
                ) == Some(m2@.graph.edge_indices[k].1)
        },
        forall|m: MapperModel| serializable(m) && #[trigger] doc_of(m) == d@ ==> r is Some,
{
    if d.fields.len() != 13 {
        proof {
            assert forall|m: MapperModel| serializable(m) && #[trigger] doc_of(m)
                == d@ implies false by {
                assert(doc_of(m).fields.len() == 13);
            }
        }
        return None;
    }
    let recs = match field_records(d, 0, "components") {
        Some(x) => x,
        None => {
            proof {
                assert forall|m: MapperModel| serializable(m) && #[trigger] doc_of(m)
                    == d@ implies false by {
                    assert(d@.fields[0int] == doc_of(m).fields[0int]);
                }
            }
            return None;
        },
    };
    let erecs = match field_records(d, 1, "edges") {
        Some(x) => x,
        None => {
            proof {
                assert forall|m: MapperModel| serializable(m) && #[trigger] doc_of(m)
                    == d@ implies false by {
                    assert(d@.fields[1int] == doc_of(m).fields[1int]);
                }
            }
            return None;
        },
    };
    let groups = match field_groups(d, 2, "cycles") {
        Some(x) => x,
        None => {
            proof {
                assert forall|m: MapperModel| serializable(m) && #[trigger] doc_of(m)
                    == d@ implies false by {
                    assert(d@.fields[2int] == doc_of(m).fields[2int]);
                }
            }
            return None;
        },
    };
    let entry_points = match field_textlist(d, 3, "entry_points") {
        Some(x) => x,
        None => {
            proof {
                assert forall|m: MapperModel| serializable(m) && #[trigger] doc_of(m)
                    == d@ implies false by {
                    assert(d@.fields[3int] == doc_of(m).fields[3int]);
                }
            }
            return None;
        },
    };
    let most_connected = match field_textlist(d, 4, "most_connected_components") {
        Some(x) => x,
        None => {
            proof {
                assert forall|m: MapperModel| serializable(m) && #[trigger] doc_of(m)
                    == d@ implies false by {
                    assert(d@.fields[4int] == doc_of(m).fields[4int]);
                }
            }
            return None;
        },
    };
    let order = match field_textlist(d, 5, "processing_order") {
        Some(x) => x,
        None => {
            proof {
                assert forall|m: MapperModel| serializable(m) && #[trigger] doc_of(m)
                    == d@ implies false by {
                    assert(d@.fields[5int] == doc_of(m).fields[5int]);
                }
            }
            return None;
        },
    };
    let total_files = match field_number(d, 6, "total_files") {
        Some(x) => x,
        None => {
            proof {
                assert forall|m: MapperModel| serializable(m) && #[trigger] doc_of(m)
                    == d@ implies false by {
                    assert(d@.fields[6int] == doc_of(m).fields[6int]);
                }
            }
            return None;
        },
    };
    let total_components = match field_number(d, 7, "total_components") {
        Some(x) => x,
        None => {
            proof {
                assert forall|m: MapperModel| serializable(m) && #[trigger] doc_of(m)
                    == d@ implies false by {
                    assert(d@.fields[7int] == doc_of(m).fields[7int]);
                }
            }
            return None;
        },
    };
    let most_complex = match field_textlist(d, 8, "most_complex_files") {
        Some(x) => x,
        None => {
            proof {
                assert forall|m: MapperModel| serializable(m) && #[trigger] doc_of(m)
                    == d@ implies false by {
                    assert(d@.fields[8int] == doc_of(m).fields[8int]);
                }
            }
            return None;
        },
    };
    let hotspots = match field_textlist(d, 9, "dependency_hotspots") {
        Some(x) => x,
        None => {
            proof {
                assert forall|m: MapperModel| serializable(m) && #[trigger] doc_of(m)
                    == d@ implies false by {
                    assert(d@.fields[9int] == doc_of(m).fields[9int]);
                }
            }
            return None;
        },
    };
    let cycles_present = match field_flag(d, 10, "cycles_present") {
        Some(x) => x,
        None => {
            proof {
                assert forall|m: MapperModel| serializable(m) && #[trigger] doc_of(m)
                    == d@ implies false by {
                    assert(d@.fields[10int] == doc_of(m).fields[10int]);
                }
            }
            return None;
        },
    };
    let unresolved = match field_number(d, 11, "unresolved_references") {
        Some(x) => x,
        None => {
            proof {
                assert forall|m: MapperModel| serializable(m) && #[trigger] doc_of(m)
                    == d@ implies false by {
                    assert(d@.fields[11int] == doc_of(m).fields[11int]);
                }
            }
            return None;
        },
    };
    let invalid = match field_number(d, 12, "invalid_records") {
        Some(x) => x,
        None => {
            proof {
                assert forall|m: MapperModel| serializable(m) && #[trigger] doc_of(m)
                    == d@ implies false by {
                    assert(d@.fields[12int] == doc_of(m).fields[12int]);
                }
            }
            return None;
        },
    };
    if total_files > usize::MAX as u64 || total_components > usize::MAX as u64 || unresolved
        > usize::MAX as u64 || invalid > usize::MAX as u64 {
        proof {
            assert forall|m: MapperModel| serializable(m) && #[trigger] doc_of(m)
                == d@ implies false by {
                assert(d@.fields[6int] == doc_of(m).fields[6int]);
                assert(d@.fields[7int] == doc_of(m).fields[7int]);
                assert(d@.fields[11int] == doc_of(m).fields[11int]);
                assert(d@.fields[12int] == doc_of(m).fields[12int]);
            }
        }
        return None;
    }
    // the components
    let nrec = recs.len();
    let mut comps: Vec<CodeComponent> = Vec::new();
    let mut i: usize = 0;
    proof {
        assert(comp_records(comps.deep_view()) =~= recs.deep_view().take(0int));
    }
    while i < nrec
        invariant
            0 <= i <= nrec,
            nrec == recs.len(),
            d@.fields.len() == 13,
            d@.fields[0int] == (FieldModel {
                name: "components"@,
                value: ValueModel::Records(recs.deep_view()),
            }),
            comp_records(comps.deep_view()) == recs.deep_view().take(i as int),
            comps.len() == i,
        decreases nrec - i,
    {
        proof {
            assert(recs.deep_view()[i as int] == recs@[i as int].deep_view());
        }
        match parse_component(&recs[i]) {
            Some(c) => {
                let ghost pre = comps.deep_view();
                let ghost cm = c@;
                comps.push(c);
                proof {
                    assert(comps.deep_view() =~= pre.push(cm));
                    assert(comp_records(comps.deep_view()) =~= recs.deep_view().take(
                        i as int + 1,
                    ));
                }
            },
            None => {
                proof {
                    assert forall|m: MapperModel| serializable(m) && #[trigger] doc_of(m)
                        == d@ implies false by {
                        assert(d@.fields[0int] == doc_of(m).fields[0int]);
                        assert(comp_records(m.graph.components) == recs.deep_view());
                        assert(comp_record(m.graph.components[i as int]) == recs.deep_view()[
                            i as int]);
                        assert(bounded_component(m.graph.components[i as int]));
                    }
                }
                return None;
            },
        }
        i = i + 1;
    }
    proof {
        assert(recs.deep_view().take(nrec as int) =~= recs.deep_view());
    }
    // the edges, with their index form rebuilt against the store
    let nedg = erecs.len();
    let mut edges: Vec<DependencyEdge> = Vec::new();
    let mut eidx: Vec<(usize, usize)> = Vec::new();
    let mut k: usize = 0;
    proof {
        assert(edge_records(edges.deep_view()) =~= erecs.deep_view().take(0int));
    }
    while k < nedg
        invariant
            0 <= k <= nedg,
            nedg == erecs.len(),
            d@.fields.len() == 13,
            d@.fields[0int] == (FieldModel {
                name: "components"@,
                value: ValueModel::Records(recs.deep_view()),
            }),
            d@.fields[1int] == (FieldModel {
                name: "edges"@,
                value: ValueModel::Records(erecs.deep_view()),
            }),
            comp_records(comps.deep_view()) == recs.deep_view(),
            edge_records(edges.deep_view()) == erecs.deep_view().take(k as int),
            edges.len() == k,
            eidx.len() == k,
            forall|kk: int|
                0 <= kk < k ==> find_id(
                    comps.deep_view(),
                    (#[trigger] edges.deep_view()[kk]).from,
                ) == Some(crate::graph::pairs_view(eidx@)[kk].0) && find_id(
                    comps.deep_view(),
                    edges.deep_view()[kk].to,
                ) == Some(crate::graph::pairs_view(eidx@)[kk].1),
        decreases nedg - k,
    {
        proof {
            assert(erecs.deep_view()[k as int] == erecs@[k as int].deep_view());
        }
        let parsed = parse_edge(&erecs[k]);
        match parsed {
            Some(e) => {
                let ou = crate::graph::find_component(&comps, e.from.as_str());
                let ov = crate::graph::find_component(&comps, e.to.as_str());
                match (ou, ov) {
                    (Some(u), Some(v)) => {
                        let ghost epre = edges.deep_view();
                        let ghost em = e@;
                        let ghost ipre = eidx@;
                        edges.push(e);
                        eidx.push((u, v));
                        proof {
                            assert(edges.deep_view() =~= epre.push(em));
                            assert(edge_records(edges.deep_view()) =~= erecs.deep_view().take(
                                k as int + 1,
                            ));
                            assert(crate::graph::pairs_view(eidx@) =~= crate::graph::pairs_view(
                                ipre,
                            ).push((u as int, v as int)));
                        }
                    },
                    _ => {
                        proof {
                            assert forall|m: MapperModel| serializable(m) && #[trigger] doc_of(m)
                                == d@ implies false by {
                                assert(d@.fields[0int] == doc_of(m).fields[0int]);
                                assert(d@.fields[1int] == doc_of(m).fields[1int]);
                                assert(comp_records(m.graph.components) == recs.deep_view());
                                lemma_comp_records_injective(
                                    m.graph.components,
                                    comps.deep_view(),
                                );
                                assert(edge_records(m.graph.edges) == erecs.deep_view());
                                assert(edge_record(m.graph.edges[k as int]) == erecs.deep_view()[
                                    k as int]);
                                lemma_edge_record_injective(m.graph.edges[k as int], e@);
                                let g = m.graph;
                                assert(g.edges_wf());
                                assert(0 <= k < g.edge_indices.len());
                                let u0 = g.edge_indices[k as int].0;
                                let v0 = g.edge_indices[k as int].1;
                                assert(g.components[u0].id == g.edges[k as int].from);
                                assert(g.components[v0].id == g.edges[k as int].to);
                                crate::graph::lemma_find_id_props(comps.deep_view(), e.from@);
                                crate::graph::lemma_find_id_props(comps.deep_view(), e.to@);
                            }
                        }
                        return None;
                    },
                }
            },
            None => {
                proof {
                    assert forall|m: MapperModel| serializable(m) && #[trigger] doc_of(m)
                        == d@ implies false by {
                        assert(d@.fields[1int] == doc_of(m).fields[1int]);
                        assert(edge_records(m.graph.edges) == erecs.deep_view());
                        assert(edge_record(m.graph.edges[k as int]) == erecs.deep_view()[
                            k as int]);
                    }
                }
                return None;
            },
        }
        k = k + 1;
    }
    proof {
        assert(erecs.deep_view().take(nedg as int) =~= erecs.deep_view());
    }
    let m2 = RepositoryMapper {
        graph: DependencyGraph {
            components: comps,
            edges,
            edge_indices: eidx,
            cycles: clone_groups(groups),
        },
        insights: RepositoryInsights {
            total_files: total_files as usize,
            total_components: total_components as usize,
            most_complex_files: crate::responses::clone_ids(most_complex),
            most_connected_components: crate::responses::clone_ids(most_connected),
            architectural_layers: Vec::new(),
            entry_points: crate::responses::clone_ids(entry_points),
            dependency_hotspots: crate::responses::clone_ids(hotspots),
        },
        topological_order: crate::responses::clone_ids(order),
        cycles_present,
        unresolved_references: unresolved as usize,
        invalid_records: invalid as usize,
    };
    proof {
        assert(m2@.insights.architectural_layers =~= Seq::<LayerModel>::empty());
        assert(doc_of(m2@).fields =~= d@.fields);
        assert(doc_of(m2@) =~= d@);
    }
    Some(m2)
}

/// The round-trip law at the model level: a parsed document determines the
/// analyzer that serialized it.
pub proof fn lemma_document_round_trip(m: MapperModel, m2: MapperModel)
    requires
        serializable(m),
        doc_of(m2) == doc_of(m),
        m2.insights.architectural_layers == Seq::<LayerModel>::empty(),
        m2.graph.edge_indices.len() == m2.graph.edges.len(),
        forall|k: int|
            0 <= k < m2.graph.edges.len() ==> find_id(
                m2.graph.components,
                (#[trigger] m2.graph.edges[k]).from,
            ) == Some(m2.graph.edge_indices[k].0) && find_id(
                m2.graph.components,
                m2.graph.edges[k].to,
            ) == Some(m2.graph.edge_indices[k].1),
    ensures
        m2 == m,
{
    assert(doc_of(m2).fields[0int] == doc_of(m).fields[0int]);
    assert(doc_of(m2).fields[1int] == doc_of(m).fields[1int]);
    assert(doc_of(m2).fields[2int] == doc_of(m).fields[2int]);
    assert(doc_of(m2).fields[3int] == doc_of(m).fields[3int]);
    assert(doc_of(m2).fields[4int] == doc_of(m).fields[4int]);
    assert(doc_of(m2).fields[5int] == doc_of(m).fields[5int]);
    assert(doc_of(m2).fields[6int] == doc_of(m).fields[6int]);
    assert(doc_of(m2).fields[7int] == doc_of(m).fields[7int]);
    assert(doc_of(m2).fields[8int] == doc_of(m).fields[8int]);
    assert(doc_of(m2).fields[9int] == doc_of(m).fields[9int]);
    assert(doc_of(m2).fields[10int] == doc_of(m).fields[10int]);
    assert(doc_of(m2).fields[11int] == doc_of(m).fields[11int]);
    assert(doc_of(m2).fields[12int] == doc_of(m).fields[12int]);
    lemma_comp_records_injective(m2.graph.components, m.graph.components);
    lemma_edge_records_injective(m2.graph.edges, m.graph.edges);
    assert forall|k: int| 0 <= k < m2.graph.edge_indices.len() implies #[trigger] m2
        .graph
        .edge_indices[k] == m.graph.edge_indices[k] by {
        let u0 = m.graph.edge_indices[k].0;
        let v0 = m.graph.edge_indices[k].1;
        assert(m.graph.edges_wf());
        assert(m.graph.components[u0].id == m.graph.edges[k].from);
        assert(m.graph.components[v0].id == m.graph.edges[k].to);
        lemma_find_unique(m.graph.components, u0);
        lemma_find_unique(m.graph.components, v0);
        assert(find_id(m2.graph.components, m2.graph.edges[k].from) == Some(
            m2.graph.edge_indices[k].0,
        ));
        assert(find_id(m2.graph.components, m2.graph.edges[k].to) == Some(
            m2.graph.edge_indices[k].1,
        ));
    }
    assert(m2.graph.edge_indices =~= m.graph.edge_indices);
    assert(m2.graph =~= m.graph);
    assert(m2.insights =~= m.insights);
    assert(m2 =~= m);
}

/// The round trip itself: serializing a finished analysis to the structured
/// document form and parsing it back yields an equal analyzer — the same
/// graph and the same insights.
pub fn round_trip_check(m: &RepositoryMapper) -> (r: Option<RepositoryMapper>)
    requires
        m@.graph.wf(),
        m@.insights.architectural_layers == Seq::<LayerModel>::empty(),
    ensures
        r matches Some(m2) && m2@ == m@,
{
    let d = to_document(m);
    let r = from_document(&d);
    proof {
        assert forall|i: int| 0 <= i < m@.graph.components.len() implies bounded_component(
            #[trigger] m@.graph.components[i],
        ) by {
            assert(m@.graph.components[i] == m.graph.components@[i]@);
        }
        assert(serializable(m@));
        assert(doc_of(m@) == d@);
        match &r {
            Some(m2) => {
                lemma_document_round_trip(m@, m2@);
            },
            None => {
                assert(false);
            },
        }
    }
    r
}

} // verus!
