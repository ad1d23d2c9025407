//! The repository analyzer: runs the pipeline — symbol store, graph builder,
//! cycle detector, topological sequencer, insight generator — over one batch
//! of symbol records and reference facts, and answers point queries over the
//! finished graph.

use vstd::prelude::*;

use crate::component::{AnalysisError, DependencyEdge, EdgeModel, SymbolModel, SymbolRecord};
use crate::graph::{apply_facts, facts_graph, find_component, find_id, load_symbols, spec_apply,
    spec_load, DependencyGraph, GraphModel};
use crate::insights::{insights_of, spec_insights, InsightsModel, RepositoryInsights};
use crate::scc::{detect_cycles_of, spec_cycles};
use crate::topo::{spec_cycles_present, spec_topo_ids, topological_order_of};

verus! {

/// The analyzer: the finished graph with its derived insights and processing
/// order, plus the audit counters for dropped input.
#[derive(Debug, PartialEq)]
pub struct RepositoryMapper {
    pub graph: DependencyGraph,
    pub insights: RepositoryInsights,
    pub topological_order: Vec<String>,
    /// Whether cycles degraded the topological order.
    pub cycles_present: bool,
    /// How many reference facts named an id with no symbol record.
    pub unresolved_references: usize,
    /// How many symbol records were rejected for an inverted line range.
    pub invalid_records: usize,
}

/// The model of the analyzer.
#[verifier::ext_equal]
pub ghost struct MapperModel {
    pub graph: GraphModel,
    pub insights: InsightsModel,
    pub topological_order: Seq<Seq<char>>,
    pub cycles_present: bool,
    pub unresolved_references: int,
    pub invalid_records: int,
}

impl View for RepositoryMapper {
    type V = MapperModel;

    open spec fn view(&self) -> MapperModel {
        MapperModel {
            graph: self.graph@,
            insights: self.insights@,
            topological_order: self.topological_order.deep_view(),
            cycles_present: self.cycles_present,
            unresolved_references: self.unresolved_references as int,
            invalid_records: self.invalid_records as int,
        }
    }
}

/// What one analysis of the given batch yields: the analyzer state on
/// success, or the offending id when two symbol records share an id across
/// different files.
pub open spec fn spec_analyze(recs: Seq<SymbolModel>, facts: Seq<EdgeModel>) -> Result<
    MapperModel,
    Seq<char>,
> {
    let ld = spec_load(recs);
    match ld.duplicate {
        Some(id) => Err(id),
        None => {
            let fs = spec_apply(ld.components, facts);
            let g0 = facts_graph(fs);
            let g = GraphModel { cycles: spec_cycles(g0), ..g0 };
            Ok(
                MapperModel {
                    graph: g,
                    insights: spec_insights(g),
                    topological_order: spec_topo_ids(g),
                    cycles_present: spec_cycles_present(g),
                    unresolved_references: fs.unresolved,
                    invalid_records: ld.invalid_records,
                },
            )
        },
    }
}

/// The analyzer a batch analyzes to, when it succeeds.
pub open spec fn analysis_outcome(
    m: MapperModel,
    recs: Seq<SymbolModel>,
    facts: Seq<EdgeModel>,
) -> bool {
    spec_analyze(recs, facts) == Ok::<MapperModel, Seq<char>>(m)
}

/// Idempotence of analysis: two runs over identical symbol and fact batches
/// yield identical results — graph, cycles, order and insights alike — since
/// the outcome is a function of the input batch alone.
pub proof fn lemma_analyze_idempotent(
    recs: Seq<SymbolModel>,
    facts: Seq<EdgeModel>,
    m1: MapperModel,
    m2: MapperModel,
)
    requires
        analysis_outcome(m1, recs, facts),
        analysis_outcome(m2, recs, facts),
    ensures
        m1 == m2,
{
}

impl RepositoryMapper {
    /// A fresh analyzer with an empty graph.
    pub fn new() -> (r: RepositoryMapper)
        ensures
            r@.graph.components == Seq::<crate::component::ComponentModel>::empty(),
            r@.graph.edges == Seq::<EdgeModel>::empty(),
            r@.graph.cycles == Seq::<Seq<Seq<char>>>::empty(),
            r@.topological_order == Seq::<Seq<char>>::empty(),
            r@.unresolved_references == 0,
            r@.invalid_records == 0,
            !r@.cycles_present,
    {
        let r = RepositoryMapper {
            graph: DependencyGraph {
                components: Vec::new(),
                edges: Vec::new(),
                edge_indices: Vec::new(),
                cycles: Vec::new(),
            },
            insights: RepositoryInsights {
                total_files: 0,
                total_components: 0,
                most_complex_files: Vec::new(),
                most_connected_components: Vec::new(),
                architectural_layers: Vec::new(),
                entry_points: Vec::new(),
                dependency_hotspots: Vec::new(),
            },
            topological_order: Vec::new(),
            cycles_present: false,
            unresolved_references: 0,
            invalid_records: 0,
        };
        proof {
            assert(r@.graph.components =~= Seq::<crate::component::ComponentModel>::empty());
            assert(r@.graph.edges =~= Seq::<EdgeModel>::empty());
            assert(r@.graph.cycles =~= Seq::<Seq<Seq<char>>>::empty());
            assert(r@.topological_order =~= Seq::<Seq<char>>::empty());
        }
        r
    }

    /// Runs the whole pipeline over one batch of symbol records and
    /// reference facts. On success the analyzer holds exactly the outcome
    /// that the batch determines: a well-formed graph, its cycles, a
    /// processing order listing every component exactly once, and the
    /// insights. The only fatal condition is two symbol records sharing an
    /// id across two different files; the analyzer is then left unchanged.
    pub fn analyze_repository(
        &mut self,
        symbols: &Vec<SymbolRecord>,
        facts: &Vec<DependencyEdge>,
    ) -> (r: Result<(), AnalysisError>)
        ensures
            match r {
                Ok(()) => {
                    &&& analysis_outcome(final(self)@, symbols.deep_view(), facts.deep_view())
                    &&& final(self)@.graph.wf()
                    &&& final(self).topological_order.len() == final(self).graph.components.len()
                },
                Err(e) => {
                    &&& e matches AnalysisError::DuplicateId { id } && spec_analyze(
                        symbols.deep_view(),
                        facts.deep_view(),
                    ) == Err::<MapperModel, Seq<char>>(id@)
                    &&& *final(self) == *old(self)
                },
            },
    {
        let loaded = load_symbols(symbols);
        match loaded {
            Err(e) => Err(e),
            Ok(p) => {
                let (comps, invalid) = p;
                let (g, unresolved) = apply_facts(comps, facts);
                self.graph = g;
                self.invalid_records = invalid;
                self.unresolved_references = unresolved;
                let ghost g0 = self.graph@;
                let cycles = detect_cycles_of(&self.graph);
                self.graph.cycles = cycles;
                proof {
                    assert(self.graph@ =~= (GraphModel { cycles: spec_cycles(g0), ..g0 }));
                }
                let (order, present) = topological_order_of(&self.graph);
                self.topological_order = order;
                self.cycles_present = present;
                let derived = insights_of(&self.graph);
                self.insights = derived;
                proof {
                    assert(self@ =~= spec_analyze(
                        symbols.deep_view(),
                        facts.deep_view(),
                    )->Ok_0);
                }
                Ok(())
            },
        }
    }

    /// Recomputes the insights from the current graph. Insights are a pure
    /// function of the graph, so recomputation never changes an up-to-date
    /// value.
    pub fn generate_insights(&mut self)
        requires
            old(self)@.graph.wf(),
        ensures
            final(self)@.insights == spec_insights(old(self)@.graph),
            final(self).graph == old(self).graph,
            final(self).topological_order == old(self).topological_order,
            final(self).cycles_present == old(self).cycles_present,
            final(self).unresolved_references == old(self).unresolved_references,
            final(self).invalid_records == old(self).invalid_records,
    {
        let derived = insights_of(&self.graph);
        self.insights = derived;
    }

    /// The deterministic processing order, dependencies first.
    pub fn get_processing_order(&self) -> (r: &Vec<String>)
        ensures
            r == &self.topological_order,
    {
        &self.topological_order
    }

    /// The ids the named component depends on, or nothing when the id is
    /// unknown.
    pub fn get_dependencies(&self, component_id: &str) -> (r: Option<&Vec<String>>)
        ensures
            match r {
                Some(d) => exists|j: int|
                    find_id(self.graph@.components, component_id@) == Some(j)
                        && d.deep_view() == self.graph@.components[j].dependencies,
                None => find_id(self.graph@.components, component_id@) is None,
            },
    {
        match find_component(&self.graph.components, component_id) {
            Some(j) => {
                proof {
                    crate::graph::lemma_find_id_props(self.graph@.components, component_id@);
                }
                Some(&self.graph.components[j].dependencies)
            },
            None => None,
        }
    }

    /// The ids that depend on the named component, or nothing when the id is
    /// unknown.
    pub fn get_dependents(&self, component_id: &str) -> (r: Option<&Vec<String>>)
        ensures
            match r {
                Some(d) => exists|j: int|
                    find_id(self.graph@.components, component_id@) == Some(j)
                        && d.deep_view() == self.graph@.components[j].dependents,
                None => find_id(self.graph@.components, component_id@) is None,
            },
    {
        match find_component(&self.graph.components, component_id) {
            Some(j) => {
                proof {
                    crate::graph::lemma_find_id_props(self.graph@.components, component_id@);
                }
                Some(&self.graph.components[j].dependents)
            },
            None => None,
        }
    }
}


impl Default for RepositoryMapper {
    /// The same empty analyzer `new` builds.
    fn default() -> (r: RepositoryMapper)
        ensures
            r@.graph.components == Seq::<crate::component::ComponentModel>::empty(),
            r@.graph.edges == Seq::<EdgeModel>::empty(),
            r@.topological_order == Seq::<Seq<char>>::empty(),
    {
        RepositoryMapper::new()
    }
}

} // verus!
