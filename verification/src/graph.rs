//! The dependency graph: an arena-style store of components plus the ordered
//! edge list, and the two build stages that produce it from symbol records
//! and raw reference facts.

use vstd::prelude::*;

use crate::component::{
    AnalysisError, CodeComponent, ComponentModel, DependencyEdge, EdgeModel, SymbolModel,
    SymbolRecord, distinct_seq,
};
use crate::strid::str_eq;

verus! {

/// The dependency graph of a repository. Components are owned by one vector
/// (an arena keyed by position); every other part of the engine refers to a
/// component by its index or by its id.
#[derive(Debug, PartialEq)]
pub struct DependencyGraph {
    pub components: Vec<CodeComponent>,
    /// Every resolved reference fact, in input order.
    pub edges: Vec<DependencyEdge>,
    /// Each edge of `edges` as a pair of indices into `components`.
    pub edge_indices: Vec<(usize, usize)>,
    /// Detected cycles: disjoint groups of mutually dependent component ids.
    pub cycles: Vec<Vec<String>>,
}

/// The index pairs of an edge list, as unbounded integers.
pub open spec fn pairs_view(v: Seq<(usize, usize)>) -> Seq<(int, int)> {
    Seq::new(v.len(), |k: int| (v[k].0 as int, v[k].1 as int))
}

/// The model of a graph.
#[verifier::ext_equal]
pub ghost struct GraphModel {
    pub components: Seq<ComponentModel>,
    pub edges: Seq<EdgeModel>,
    pub edge_indices: Seq<(int, int)>,
    pub cycles: Seq<Seq<Seq<char>>>,
}

impl View for DependencyGraph {
    type V = GraphModel;

    open spec fn view(&self) -> GraphModel {
        GraphModel {
            components: self.components.deep_view(),
            edges: self.edges.deep_view(),
            edge_indices: pairs_view(self.edge_indices@),
            cycles: self.cycles.deep_view(),
        }
    }
}

impl GraphModel {
    /// Number of components.
    pub open spec fn n(self) -> int {
        self.components.len() as int
    }

    /// There is an edge from the component at index `u` to the one at `v`.
    pub open spec fn dep_edge(self, u: int, v: int) -> bool {
        exists|k: int| 0 <= k < self.edge_indices.len() && self.edge_indices[k] == (u, v)
    }

    /// Ids name components uniquely.
    pub open spec fn unique_ids(self) -> bool {
        forall|i: int, j: int|
            0 <= i < j < self.n() ==> self.components[i].id != self.components[j].id
    }

    /// Every line range is ordered.
    pub open spec fn ranges_ok(self) -> bool {
        forall|i: int|
            0 <= i < self.n() ==> #[trigger] self.components[i].start_line
                <= self.components[i].end_line
    }

    /// The index form of each edge agrees with its id form, and both
    /// endpoints exist.
    pub open spec fn edges_wf(self) -> bool {
        &&& self.edge_indices.len() == self.edges.len()
        &&& forall|k: int|
            0 <= k < self.edge_indices.len() ==> {
                &&& 0 <= (#[trigger] self.edge_indices[k]).0 < self.n()
                &&& 0 <= self.edge_indices[k].1 < self.n()
                &&& self.components[self.edge_indices[k].0].id == self.edges[k].from
                &&& self.components[self.edge_indices[k].1].id == self.edges[k].to
            }
    }

    /// A component's dependency list holds exactly the ids it has an edge to,
    /// and its dependents list exactly the ids that have an edge to it.
    pub open spec fn lists_match_edges(self) -> bool {
        &&& forall|u: int, v: int|
            0 <= u < self.n() && 0 <= v < self.n() ==> ((
            #[trigger] self.components[u].dependencies.contains(self.components[v].id))
                <==> self.dep_edge(u, v))
        &&& forall|u: int, v: int|
            0 <= u < self.n() && 0 <= v < self.n() ==> ((
            #[trigger] self.components[v].dependents.contains(self.components[u].id))
                <==> self.dep_edge(u, v))
    }

    /// Every entry of a dependency or dependent list is the id of some
    /// component of the graph.
    pub open spec fn lists_closed(self) -> bool {
        &&& forall|u: int, s: Seq<char>|
            0 <= u < self.n() && (#[trigger] self.components[u].dependencies.contains(s))
                ==> exists|j: int| 0 <= j < self.n() && (#[trigger] self.components[j].id) == s
        &&& forall|u: int, s: Seq<char>|
            0 <= u < self.n() && (#[trigger] self.components[u].dependents.contains(s))
                ==> exists|j: int| 0 <= j < self.n() && (#[trigger] self.components[j].id) == s
    }

    /// Dependency and dependent lists hold no id twice.
    pub open spec fn lists_distinct(self) -> bool {
        forall|u: int|
            0 <= u < self.n() ==> distinct_seq(#[trigger] self.components[u].dependencies)
                && distinct_seq(self.components[u].dependents)
    }

    /// Well-formedness of a built graph. This includes the standing
    /// bidirectional-consistency invariant: an id stands in A's dependencies
    /// exactly when A's id stands in its dependents, both meaning an edge.
    pub open spec fn wf(self) -> bool {
        &&& self.unique_ids()
        &&& self.ranges_ok()
        &&& self.edges_wf()
        &&& self.lists_match_edges()
        &&& self.lists_closed()
        &&& self.lists_distinct()
    }
}

/// Index of the first component with the given id, if any.
pub open spec fn find_id(comps: Seq<ComponentModel>, id: Seq<char>) -> Option<int>
    decreases comps.len(),
{
    if comps.len() == 0 {
        None
    } else if comps[0].id == id {
        Some(0int)
    } else {
        match find_id(comps.drop_first(), id) {
            None => None,
            Some(j) => Some(j + 1),
        }
    }
}

pub proof fn lemma_find_id_props(comps: Seq<ComponentModel>, id: Seq<char>)
    ensures
        match find_id(comps, id) {
            Some(j) => 0 <= j < comps.len() && comps[j].id == id && forall|k: int|
                0 <= k < j ==> comps[k].id != id,
            None => forall|k: int| 0 <= k < comps.len() ==> comps[k].id != id,
        },
    decreases comps.len(),
{
    if comps.len() > 0 && comps[0].id != id {
        lemma_find_id_props(comps.drop_first(), id);
        let rest = comps.drop_first();
        match find_id(rest, id) {
            None => {
                assert forall|k: int| 0 <= k < comps.len() implies comps[k].id != id by {
                    if k > 0 {
                        assert(rest[k - 1] == comps[k]);
                    }
                }
            },
            Some(j) => {
                assert(comps[j + 1] == rest[j]);
                assert forall|k: int| 0 <= k < j + 1 implies comps[k].id != id by {
                    if k > 0 {
                        assert(rest[k - 1] == comps[k]);
                    }
                }
            },
        }
    }
}

/// Finds the component with the given id in the store.
pub fn find_component(comps: &Vec<CodeComponent>, id: &str) -> (r: Option<usize>)
    ensures
        match r {
            Some(j) => find_id(comps.deep_view(), id@) == Some(j as int),
            None => find_id(comps.deep_view(), id@) is None,
        },
{
    let n = comps.len();
    let mut i: usize = 0;
    while i < n
        invariant
            0 <= i <= n,
            n == comps.deep_view().len(),
            forall|k: int| 0 <= k < i ==> comps.deep_view()[k].id != id@,
        decreases n - i,
    {
        if str_eq(comps[i].id.as_str(), id) {
            proof {
                assert(comps.deep_view()[i as int] == comps@[i as int]@);
                assert(comps.deep_view()[i as int].id == id@);
                lemma_find_id_props(comps.deep_view(), id@);
            }
            return Some(i);
        }
        i = i + 1;
    }
    proof {
        lemma_find_id_props(comps.deep_view(), id@);
    }
    None
}

/// Whether an id list holds the given id.
pub fn contains_id(list: &Vec<String>, id: &str) -> (r: bool)
    ensures
        r == list.deep_view().contains(id@),
{
    let n = list.len();
    let mut i: usize = 0;
    while i < n
        invariant
            0 <= i <= n,
            n == list.deep_view().len(),
            forall|k: int| 0 <= k < i ==> list.deep_view()[k] != id@,
        decreases n - i,
    {
        if str_eq(list[i].as_str(), id) {
            proof {
                assert(list.deep_view()[i as int] == id@);
            }
            return true;
        }
        i = i + 1;
    }
    proof {
        assert(!list.deep_view().contains(id@));
    }
    false
}

/// Replaces the component at index `i`, leaving every other position as it
/// was.
fn set_component(comps: &mut Vec<CodeComponent>, i: usize, c: CodeComponent)
    requires
        i < old(comps).len(),
    ensures
        final(comps).deep_view() =~= old(comps).deep_view().update(i as int, c@),
        final(comps).len() == old(comps).len(),
{
    let ghost before = comps.deep_view();
    comps.remove(i);
    comps.insert(i, c);
    proof {
        assert forall|k: int| 0 <= k < comps.deep_view().len() implies comps.deep_view()[k]
            == before.update(i as int, c@)[k] by {
            assert(comps@[k] == if k == i { c } else { old(comps)@[k] });
        }
        assert(comps.deep_view() =~= before.update(i as int, c@));
    }
}


/// A generic fact about sequence membership after a push.
pub proof fn lemma_contains_push<A>(l: Seq<A>, x: A, y: A)
    ensures
        l.push(x).contains(y) <==> (l.contains(y) || x == y),
{
    if l.contains(y) {
        let i = choose|i: int| 0 <= i < l.len() && l[i] == y;
        assert(l.push(x)[i] == y);
    }
    if x == y {
        assert(l.push(x)[l.len() as int] == y);
    }
    if l.push(x).contains(y) {
        let i = choose|i: int| 0 <= i < l.push(x).len() && l.push(x)[i] == y;
        if i < l.len() {
            assert(l[i] == y);
        }
    }
}

/// State of the symbol-loading stage: the components loaded so far, how many
/// records were rejected for an inverted line range, and the id of the first
/// fatal duplicate, if one was seen.
#[verifier::ext_equal]
pub ghost struct LoadModel {
    pub components: Seq<ComponentModel>,
    pub invalid_records: int,
    pub duplicate: Option<Seq<char>>,
}

pub open spec fn load_init() -> LoadModel {
    LoadModel { components: Seq::empty(), invalid_records: 0, duplicate: None }
}

/// How one symbol record changes the loading state: a record with
/// `end_line < start_line` is rejected and counted; a record whose id is
/// already present replaces the earlier record when it names the same file
/// and is fatal when it does not; any other record appends a fresh component
/// with empty dependency lists. After a fatal duplicate the state is frozen.
pub open spec fn load_step(st: LoadModel, rec: SymbolModel) -> LoadModel {
    if st.duplicate is Some {
        st
    } else if rec.end_line < rec.start_line {
        LoadModel { invalid_records: st.invalid_records + 1, ..st }
    } else {
        match find_id(st.components, rec.id) {
            Some(j) => if st.components[j].file_path == rec.file_path {
                LoadModel { components: st.components.update(j, rec.as_component()), ..st }
            } else {
                LoadModel { duplicate: Some(rec.id), ..st }
            },
            None => LoadModel { components: st.components.push(rec.as_component()), ..st },
        }
    }
}

/// The loading state after a whole sequence of symbol records.
pub open spec fn spec_load(recs: Seq<SymbolModel>) -> LoadModel
    decreases recs.len(),
{
    if recs.len() == 0 {
        load_init()
    } else {
        load_step(spec_load(recs.drop_last()), recs.last())
    }
}

proof fn lemma_spec_load_take(recs: Seq<SymbolModel>, i: int)
    requires
        0 <= i < recs.len(),
    ensures
        spec_load(recs.take(i + 1)) == load_step(spec_load(recs.take(i)), recs[i]),
{
    assert(recs.take(i + 1).drop_last() =~= recs.take(i));
    assert(recs.take(i + 1).last() == recs[i]);
}

proof fn lemma_spec_load_frozen(recs: Seq<SymbolModel>, i: int)
    requires
        0 <= i <= recs.len(),
        spec_load(recs.take(i)).duplicate is Some,
    ensures
        spec_load(recs) == spec_load(recs.take(i)),
    decreases recs.len() - i,
{
    if i == recs.len() {
        assert(recs.take(i) =~= recs);
    } else {
        lemma_spec_load_take(recs, i);
        lemma_spec_load_frozen(recs, i + 1);
    }
}

/// A store fresh out of the loading stage: unique ids, ordered line ranges,
/// and dependency lists still empty.
pub open spec fn loaded_ok(comps: Seq<ComponentModel>) -> bool {
    &&& forall|i: int, j: int| 0 <= i < j < comps.len() ==> comps[i].id != comps[j].id
    &&& forall|i: int|
        0 <= i < comps.len() ==> (#[trigger] comps[i]).start_line <= comps[i].end_line
            && comps[i].dependencies == Seq::<Seq<char>>::empty() && comps[i].dependents
            == Seq::<Seq<char>>::empty()
}

/// Turns a symbol record into a fresh component with empty dependency lists.
fn new_component(rec: &SymbolRecord) -> (c: CodeComponent)
    ensures
        c@ == rec@.as_component(),
{
    let c = CodeComponent {
        id: rec.id.clone(),
        name: rec.name.clone(),
        component_type: rec.component_type,
        file_path: rec.file_path.clone(),
        start_line: rec.start_line,
        end_line: rec.end_line,
        visibility: rec.visibility,
        dependencies: Vec::new(),
        dependents: Vec::new(),
        complexity_score: rec.complexity_score,
    };
    proof {
        assert(c.dependencies.deep_view() =~= Seq::<Seq<char>>::empty());
        assert(c.dependents.deep_view() =~= Seq::<Seq<char>>::empty());
        assert(c@ =~= rec@.as_component());
    }
    c
}

/// The loading stage: filters invalid records, resolves duplicates, and
/// builds the component store. Fails exactly when two records share an id
/// but name different files.
pub fn load_symbols(symbols: &Vec<SymbolRecord>) -> (r: Result<
    (Vec<CodeComponent>, usize),
    AnalysisError,
>)
    ensures
        ({
            let st = spec_load(symbols.deep_view());
            match r {
                Ok(p) => st.duplicate is None && p.0.deep_view() == st.components && p.1
                    == st.invalid_records && loaded_ok(st.components),
                Err(e) => e matches AnalysisError::DuplicateId { id } && st.duplicate == Some(
                    id@,
                ),
            }
        }),
{
    let n = symbols.len();
    let mut comps: Vec<CodeComponent> = Vec::new();
    let mut invalid: usize = 0;
    let mut i: usize = 0;
    proof {
        assert(symbols.deep_view().take(0int) =~= Seq::<SymbolModel>::empty());
        assert(comps.deep_view() =~= Seq::<ComponentModel>::empty());
    }
    while i < n
        invariant
            0 <= i <= n,
            n == symbols.deep_view().len(),
            invalid <= i,
            spec_load(symbols.deep_view().take(i as int)) == (LoadModel {
                components: comps.deep_view(),
                invalid_records: invalid as int,
                duplicate: None,
            }),
            loaded_ok(comps.deep_view()),
        decreases n - i,
    {
        let ghost pre = spec_load(symbols.deep_view().take(i as int));
        proof {
            lemma_spec_load_take(symbols.deep_view(), i as int);
            assert(symbols.deep_view()[i as int] == symbols@[i as int]@);
        }
        let rec = &symbols[i];
        if rec.end_line < rec.start_line {
            invalid = invalid + 1;
        } else {
            match find_component(&comps, rec.id.as_str()) {
                Some(j) => {
                    proof {
                        lemma_find_id_props(comps.deep_view(), rec.id@);
                    }
                    if str_eq(comps[j].file_path.as_str(), rec.file_path.as_str()) {
                        let c = new_component(rec);
                        set_component(&mut comps, j, c);
                    } else {
                        proof {
                            lemma_spec_load_frozen(symbols.deep_view(), i as int + 1);
                        }
                        return Err(AnalysisError::DuplicateId { id: rec.id.clone() });
                    }
                },
                None => {
                    proof {
                        lemma_find_id_props(comps.deep_view(), rec.id@);
                    }
                    let c = new_component(rec);
                    comps.push(c);
                    proof {
                        assert(comps.deep_view() =~= pre.components.push(
                            symbols.deep_view()[i as int].as_component(),
                        ));
                    }
                },
            }
        }
        i = i + 1;
    }
    proof {
        assert(symbols.deep_view().take(n as int) =~= symbols.deep_view());
    }
    Ok((comps, invalid))
}


/// State of the fact-application stage: the store with its dependency lists
/// filled in so far, the resolved edges, and the count of facts that named an
/// unknown id.
#[verifier::ext_equal]
pub ghost struct FactsModel {
    pub components: Seq<ComponentModel>,
    pub edges: Seq<EdgeModel>,
    pub edge_indices: Seq<(int, int)>,
    pub unresolved: int,
}

pub open spec fn facts_init(comps: Seq<ComponentModel>) -> FactsModel {
    FactsModel {
        components: comps,
        edges: Seq::empty(),
        edge_indices: Seq::empty(),
        unresolved: 0,
    }
}

/// The graph a fact-application state denotes (no cycles detected yet).
pub open spec fn facts_graph(st: FactsModel) -> GraphModel {
    GraphModel {
        components: st.components,
        edges: st.edges,
        edge_indices: st.edge_indices,
        cycles: Seq::empty(),
    }
}

/// How one reference fact changes the state: a fact naming an unknown id is
/// dropped and counted; any other fact becomes exactly one edge and, when the
/// pair is new, enters both endpoints' dependency lists.
pub open spec fn fact_step(st: FactsModel, f: EdgeModel) -> FactsModel {
    match (find_id(st.components, f.from), find_id(st.components, f.to)) {
        (Some(u), Some(v)) => {
            let with_edge = FactsModel {
                edges: st.edges.push(f),
                edge_indices: st.edge_indices.push((u, v)),
                ..st
            };
            if st.components[u].dependencies.contains(f.to) {
                with_edge
            } else {
                let cu = st.components[u];
                let comps1 = st.components.update(
                    u,
                    ComponentModel { dependencies: cu.dependencies.push(f.to), ..cu },
                );
                let cv = comps1[v];
                let comps2 = comps1.update(
                    v,
                    ComponentModel { dependents: cv.dependents.push(f.from), ..cv },
                );
                FactsModel { components: comps2, ..with_edge }
            }
        },
        _ => FactsModel { unresolved: st.unresolved + 1, ..st },
    }
}

/// The state after a whole sequence of reference facts.
pub open spec fn spec_apply(comps: Seq<ComponentModel>, facts: Seq<EdgeModel>) -> FactsModel
    decreases facts.len(),
{
    if facts.len() == 0 {
        facts_init(comps)
    } else {
        fact_step(spec_apply(comps, facts.drop_last()), facts.last())
    }
}

proof fn lemma_spec_apply_take(comps: Seq<ComponentModel>, facts: Seq<EdgeModel>, i: int)
    requires
        0 <= i < facts.len(),
    ensures
        spec_apply(comps, facts.take(i + 1)) == fact_step(
            spec_apply(comps, facts.take(i)),
            facts[i],
        ),
{
    assert(facts.take(i + 1).drop_last() =~= facts.take(i));
    assert(facts.take(i + 1).last() == facts[i]);
}

/// One fact keeps the graph well-formed.
#[verifier::rlimit(50)]
proof fn lemma_fact_step_wf(st: FactsModel, f: EdgeModel)
    requires
        facts_graph(st).wf(),
    ensures
        facts_graph(fact_step(st, f)).wf(),
{
    let g = facts_graph(st);
    let n = g.n();
    lemma_find_id_props(st.components, f.from);
    lemma_find_id_props(st.components, f.to);
    match (find_id(st.components, f.from), find_id(st.components, f.to)) {
        (Some(u), Some(v)) => {
            let st2 = fact_step(st, f);
            let g2 = facts_graph(st2);
            assert(g2.n() == n);
            // the new edge list extends the old one by exactly the pair (u, v)
            assert(st2.edge_indices =~= st.edge_indices.push((u, v)));
            assert(st2.edges =~= st.edges.push(f));
            assert(g2.edge_indices == st2.edge_indices);
            assert(g.edge_indices == st.edge_indices);
            assert forall|x: int, y: int|
                g2.dep_edge(x, y) == (g.dep_edge(x, y) || (x == u && y == v)) by {
                if g.dep_edge(x, y) {
                    let k = choose|k: int|
                        0 <= k < g.edge_indices.len() && g.edge_indices[k] == (x, y);
                    assert(g2.edge_indices[k] == (x, y));
                    assert(g2.dep_edge(x, y));
                }
                if x == u && y == v {
                    assert(g2.edge_indices[st.edge_indices.len() as int] == (x, y));
                    assert(g2.dep_edge(x, y));
                }
                if g2.dep_edge(x, y) && !(x == u && y == v) {
                    let k = choose|k: int|
                        0 <= k < g2.edge_indices.len() && g2.edge_indices[k] == (x, y);
                    assert(k < st.edge_indices.len());
                    assert(g.edge_indices[k] == (x, y));
                    assert(g.dep_edge(x, y));
                }
            }
            assert forall|k: int| 0 <= k < g2.edge_indices.len() implies {
                &&& 0 <= (#[trigger] g2.edge_indices[k]).0 < g2.n()
                &&& 0 <= g2.edge_indices[k].1 < g2.n()
                &&& g2.components[g2.edge_indices[k].0].id == g2.edges[k].from
                &&& g2.components[g2.edge_indices[k].1].id == g2.edges[k].to
            } by {
                assert(g2.components.len() == g.components.len());
                assert forall|x: int| 0 <= x < n implies (#[trigger] g2.components[x]).id
                    == g.components[x].id by {}
                if k < st.edge_indices.len() {
                    assert(g.edge_indices[k] == g2.edge_indices[k]);
                    assert(g.edges[k] == g2.edges[k]);
                } else {
                    assert(g2.edge_indices[k] == (u, v));
                    assert(g2.edges[k] == f);
                }
            }
            assert(g2.edges_wf());
            if st.components[u].dependencies.contains(f.to) {
                // lists unchanged; the new pair was already represented
                assert(g2.components == g.components);
                assert(g.dep_edge(u, v));
                assert(g2.unique_ids());
                assert(g2.ranges_ok());
                assert(g2.lists_match_edges());
                assert(g2.lists_closed());
                assert forall|x: int| 0 <= x < n implies distinct_seq(
                    #[trigger] g2.components[x].dependencies,
                ) && distinct_seq(g2.components[x].dependents) by {
                    assert(g2.components[x] == st.components[x]);
                }
                assert(g2.lists_distinct());
                assert(g2.wf());
            } else {
                let cu = st.components[u];
                let cuu = ComponentModel { dependencies: cu.dependencies.push(f.to), ..cu };
                let comps1 = st.components.update(u, cuu);
                let cv = comps1[v];
                let cvv = ComponentModel { dependents: cv.dependents.push(f.from), ..cv };
                let comps2 = comps1.update(v, cvv);
                assert(st2.components == comps2);
                // ids, ranges and all untouched lists are unchanged
                assert forall|x: int| 0 <= x < n implies #[trigger] comps2[x].id
                    == st.components[x].id && comps2[x].start_line == st.components[x].start_line
                    && comps2[x].end_line == st.components[x].end_line by {}
                assert(g2.unique_ids());
                assert(g2.ranges_ok());
                assert(g2.edges_wf());
                // dependency lists: only u gained an entry, the id of v
                assert forall|x: int, y: int| 0 <= x < n && 0 <= y < n implies ((
                #[trigger] comps2[x].dependencies.contains(comps2[y].id)) <==> g2.dep_edge(
                    x,
                    y,
                )) by {
                    lemma_contains_push(cu.dependencies, f.to, comps2[y].id);
                    if x == u {
                        if comps2[x].dependencies.contains(comps2[y].id) {
                            if st.components[y].id == f.to {
                                assert(y == v);
                            } else {
                                assert(st.components[u].dependencies.contains(
                                    st.components[y].id,
                                ));
                            }
                        }
                        if g2.dep_edge(x, y) {
                            if x == u && y == v {
                                assert(comps2[x].dependencies.contains(f.to));
                            }
                        }
                    }
                }
                // dependents lists: only v gained an entry, the id of u
                assert forall|x: int, y: int| 0 <= x < n && 0 <= y < n implies ((
                #[trigger] comps2[y].dependents.contains(comps2[x].id)) <==> g2.dep_edge(
                    x,
                    y,
                )) by {
                    lemma_contains_push(cv.dependents, f.from, comps2[x].id);
                    if y == v {
                        if comps2[y].dependents.contains(comps2[x].id) {
                            if st.components[x].id == f.from {
                                assert(x == u);
                            } else {
                                assert(st.components[y].dependents.contains(
                                    st.components[x].id,
                                ));
                            }
                        }
                        if g2.dep_edge(x, y) {
                            if x == u && y == v {
                                assert(comps2[y].dependents.contains(f.from));
                            }
                        }
                    }
                }
                assert(g2.lists_match_edges());
                // closure: the pushed entries are the ids of v and u
                assert forall|x: int, sid: Seq<char>|
                    0 <= x < n && (#[trigger] comps2[x].dependencies.contains(sid))
                    implies exists|j: int| 0 <= j < n && (#[trigger] comps2[j].id) == sid by {
                    lemma_contains_push(cu.dependencies, f.to, sid);
                    if x == u && sid == f.to {
                        assert(comps2[v].id == sid);
                    } else {
                        assert(st.components[x].dependencies.contains(sid));
                        let j = choose|j: int| 0 <= j < n && st.components[j].id == sid;
                        assert(comps2[j].id == sid);
                    }
                }
                assert forall|x: int, sid: Seq<char>|
                    0 <= x < n && (#[trigger] comps2[x].dependents.contains(sid))
                    implies exists|j: int| 0 <= j < n && (#[trigger] comps2[j].id) == sid by {
                    lemma_contains_push(cv.dependents, f.from, sid);
                    if x == v && sid == f.from {
                        assert(comps2[u].id == sid);
                    } else {
                        assert(st.components[x].dependents.contains(sid));
                        let j = choose|j: int| 0 <= j < n && st.components[j].id == sid;
                        assert(comps2[j].id == sid);
                    }
                }
                assert(g2.lists_closed());
                // distinctness: neither pushed entry was present before
                assert(!cv.dependents.contains(f.from)) by {
                    if cv.dependents.contains(f.from) {
                        assert(st.components[v].dependents.contains(st.components[u].id));
                        assert(g.dep_edge(u, v));
                        assert(st.components[u].dependencies.contains(st.components[v].id));
                    }
                }
                assert forall|x: int| 0 <= x < n implies distinct_seq(
                    #[trigger] comps2[x].dependencies,
                ) && distinct_seq(comps2[x].dependents) by {
                    assert(distinct_seq(st.components[x].dependencies));
                    assert(distinct_seq(st.components[x].dependents));
                    if x == u {
                        assert forall|i1: int, j1: int|
                            0 <= i1 < j1 < cuu.dependencies.len() implies cuu.dependencies[i1]
                            != cuu.dependencies[j1] by {
                            if j1 == cuu.dependencies.len() - 1 {
                                assert(cu.dependencies[i1] == cuu.dependencies[i1]);
                                assert(cu.dependencies.contains(cu.dependencies[i1]));
                            }
                        }
                    }
                    if x == v {
                        assert forall|i1: int, j1: int|
                            0 <= i1 < j1 < cvv.dependents.len() implies cvv.dependents[i1]
                            != cvv.dependents[j1] by {
                            if j1 == cvv.dependents.len() - 1 {
                                assert(cv.dependents[i1] == cvv.dependents[i1]);
                                assert(cv.dependents.contains(cv.dependents[i1]));
                            }
                        }
                    }
                }
                assert forall|x: int| 0 <= x < n implies distinct_seq(
                    #[trigger] g2.components[x].dependencies,
                ) && distinct_seq(g2.components[x].dependents) by {
                    assert(g2.components[x] == comps2[x]);
                }
                assert(g2.lists_distinct());
                assert(g2.wf());
            }
        },
        _ => {
            assert(facts_graph(fact_step(st, f)) == g);
        },
    }
}


/// Appends an id to the dependency list of the component at index `i`.
fn push_dependency(comps: &mut Vec<CodeComponent>, i: usize, id: String)
    requires
        i < old(comps).len(),
    ensures
        final(comps).deep_view() =~= old(comps).deep_view().update(
            i as int,
            (ComponentModel {
                dependencies: old(comps).deep_view()[i as int].dependencies.push(id@),
                ..old(comps).deep_view()[i as int]
            }),
        ),
        final(comps).len() == old(comps).len(),
{
    let ghost before = comps.deep_view();
    let mut c = comps.remove(i);
    proof {
        assert(c@ == before[i as int]);
    }
    let ghost depsb = c.dependencies.deep_view();
    c.dependencies.push(id);
    let ghost cm = c@;
    comps.insert(i, c);
    proof {
        assert(c.dependencies.deep_view() =~= depsb.push(id@));
        assert(cm =~= (ComponentModel {
            dependencies: before[i as int].dependencies.push(id@),
            ..before[i as int]
        }));
        assert forall|k: int| 0 <= k < comps.deep_view().len() implies comps.deep_view()[k]
            == before.update(i as int, cm)[k] by {
            assert(comps@[k] == if k == i { c } else { old(comps)@[k] });
        }
        assert(comps.deep_view() =~= before.update(i as int, cm));
    }
}

/// Appends an id to the dependents list of the component at index `i`.
fn push_dependent(comps: &mut Vec<CodeComponent>, i: usize, id: String)
    requires
        i < old(comps).len(),
    ensures
        final(comps).deep_view() =~= old(comps).deep_view().update(
            i as int,
            (ComponentModel {
                dependents: old(comps).deep_view()[i as int].dependents.push(id@),
                ..old(comps).deep_view()[i as int]
            }),
        ),
        final(comps).len() == old(comps).len(),
{
    let ghost before = comps.deep_view();
    let mut c = comps.remove(i);
    proof {
        assert(c@ == before[i as int]);
    }
    let ghost depsb = c.dependents.deep_view();
    c.dependents.push(id);
    let ghost cm = c@;
    comps.insert(i, c);
    proof {
        assert(c.dependents.deep_view() =~= depsb.push(id@));
        assert(cm =~= (ComponentModel {
            dependents: before[i as int].dependents.push(id@),
            ..before[i as int]
        }));
        assert forall|k: int| 0 <= k < comps.deep_view().len() implies comps.deep_view()[k]
            == before.update(i as int, cm)[k] by {
            assert(comps@[k] == if k == i { c } else { old(comps)@[k] });
        }
        assert(comps.deep_view() =~= before.update(i as int, cm));
    }
}

/// The fact-application stage: resolves every reference fact against the
/// store, turning each resolvable fact into exactly one edge and one entry of
/// each endpoint's dependency lists (set semantics), and counting the facts
/// that name an unknown id. The resulting graph is well-formed.
pub fn apply_facts(comps0: Vec<CodeComponent>, facts: &Vec<DependencyEdge>) -> (r: (
    DependencyGraph,
    usize,
))
    requires
        loaded_ok(comps0.deep_view()),
    ensures
        ({
            let st = spec_apply(comps0.deep_view(), facts.deep_view());
            &&& r.0@ == facts_graph(st)
            &&& r.1 == st.unresolved
            &&& r.0@.wf()
        }),
{
    let ghost orig = comps0.deep_view();
    let ghost fseq = facts.deep_view();
    let mut comps = comps0;
    let mut edges: Vec<DependencyEdge> = Vec::new();
    let mut eidx: Vec<(usize, usize)> = Vec::new();
    let mut unresolved: usize = 0;
    let m = facts.len();
    let mut i: usize = 0;
    proof {
        assert(fseq.take(0int) =~= Seq::<EdgeModel>::empty());
        assert(edges.deep_view() =~= Seq::<EdgeModel>::empty());
        assert(pairs_view(eidx@) =~= Seq::<(int, int)>::empty());
        assert(spec_apply(orig, fseq.take(0int)) =~= (FactsModel {
            components: comps.deep_view(),
            edges: edges.deep_view(),
            edge_indices: pairs_view(eidx@),
            unresolved: unresolved as int,
        }));
        // the loaded store is a well-formed graph without edges
        let st0 = spec_apply(orig, fseq.take(0int));
        let g0 = facts_graph(st0);
        assert forall|x: int, y: int| 0 <= x < g0.n() && 0 <= y < g0.n() implies !(
        #[trigger] g0.components[x].dependencies.contains(g0.components[y].id)) && !(
        #[trigger] g0.components[y].dependents.contains(g0.components[x].id)) by {
            assert(g0.components[x].dependencies.len() == 0);
            assert(g0.components[y].dependents.len() == 0);
        }
        assert forall|x: int, y: int| !(#[trigger] g0.dep_edge(x, y)) by {
            assert(g0.edge_indices.len() == 0);
        }
        assert(g0.wf());
    }
    while i < m
        invariant
            0 <= i <= m,
            m == fseq.len(),
            fseq == facts.deep_view(),
            unresolved <= i,
            eidx@.len() == edges@.len(),
            spec_apply(orig, fseq.take(i as int)) == (FactsModel {
                components: comps.deep_view(),
                edges: edges.deep_view(),
                edge_indices: pairs_view(eidx@),
                unresolved: unresolved as int,
            }),
            facts_graph(spec_apply(orig, fseq.take(i as int))).wf(),
        decreases m - i,
    {
        let ghost pre = spec_apply(orig, fseq.take(i as int));
        proof {
            lemma_spec_apply_take(orig, fseq, i as int);
            assert(fseq[i as int] == facts@[i as int]@);
            lemma_fact_step_wf(pre, fseq[i as int]);
        }
        let f = &facts[i];
        let ou = find_component(&comps, f.from.as_str());
        let ov = find_component(&comps, f.to.as_str());
        match (ou, ov) {
            (Some(u), Some(v)) => {
                proof {
                    lemma_find_id_props(comps.deep_view(), f.from@);
                    lemma_find_id_props(comps.deep_view(), f.to@);
                }
                let e = DependencyEdge {
                    from: f.from.clone(),
                    to: f.to.clone(),
                    edge_type: f.edge_type,
                };
                proof {
                    assert(e@ =~= f@);
                }
                edges.push(e);
                eidx.push((u, v));
                proof {
                    assert(edges.deep_view() =~= pre.edges.push(f@));
                    assert(pairs_view(eidx@) =~= pre.edge_indices.push((u as int, v as int)));
                }
                if !contains_id(&comps[u].dependencies, f.to.as_str()) {
                    proof {
                        assert(comps.deep_view()[u as int].dependencies == comps@[
                            u as int]@.dependencies);
                    }
                    push_dependency(&mut comps, u, f.to.clone());
                    push_dependent(&mut comps, v, f.from.clone());
                    proof {
                        let fm = fseq[i as int];
                        let cu = pre.components[u as int];
                        let comps1 = pre.components.update(
                            u as int,
                            (ComponentModel { dependencies: cu.dependencies.push(fm.to), ..cu }),
                        );
                        let cv = comps1[v as int];
                        let comps2 = comps1.update(
                            v as int,
                            (ComponentModel { dependents: cv.dependents.push(fm.from), ..cv }),
                        );
                        assert(comps.deep_view() =~= comps2);
                    }
                } else {
                    proof {
                        assert(comps.deep_view()[u as int].dependencies == comps@[
                            u as int]@.dependencies);
                    }
                }
                proof {
                    assert(spec_apply(orig, fseq.take(i as int + 1)) =~= (FactsModel {
                        components: comps.deep_view(),
                        edges: edges.deep_view(),
                        edge_indices: pairs_view(eidx@),
                        unresolved: unresolved as int,
                    }));
                }
            },
            _ => {
                unresolved = unresolved + 1;
                proof {
                    assert(spec_apply(orig, fseq.take(i as int + 1)) =~= (FactsModel {
                        components: comps.deep_view(),
                        edges: edges.deep_view(),
                        edge_indices: pairs_view(eidx@),
                        unresolved: unresolved as int,
                    }));
                }
            },
        }
        i = i + 1;
    }
    proof {
        assert(fseq.take(m as int) =~= fseq);
    }
    let g = DependencyGraph { components: comps, edges, edge_indices: eidx, cycles: Vec::new() };
    proof {
        assert(g.cycles.deep_view() =~= Seq::<Seq<Seq<char>>>::empty());
        assert(g@ =~= facts_graph(spec_apply(orig, fseq)));
    }
    (g, unresolved)
}


/// The bidirectional-consistency invariant of every built graph: each id in a
/// component's dependencies names an existing component whose dependents hold
/// the first component's id — and conversely.
pub proof fn lemma_bidirectional_consistency(g: GraphModel)
    requires
        g.wf(),
    ensures
        forall|u: int, s: Seq<char>|
            0 <= u < g.n() && (#[trigger] g.components[u].dependencies.contains(s)) ==> exists|
                j: int,
            |
                0 <= j < g.n() && (#[trigger] g.components[j].id) == s
                    && g.components[j].dependents.contains(g.components[u].id),
        forall|u: int, s: Seq<char>|
            0 <= u < g.n() && (#[trigger] g.components[u].dependents.contains(s)) ==> exists|
                j: int,
            |
                0 <= j < g.n() && (#[trigger] g.components[j].id) == s
                    && g.components[j].dependencies.contains(g.components[u].id),
{
    assert forall|u: int, s: Seq<char>|
        0 <= u < g.n() && (#[trigger] g.components[u].dependencies.contains(s)) implies exists|
        j: int,
    |
        0 <= j < g.n() && (#[trigger] g.components[j].id) == s
            && g.components[j].dependents.contains(g.components[u].id) by {
        let j = choose|j: int| 0 <= j < g.n() && (#[trigger] g.components[j].id) == s;
        assert(g.components[u].dependencies.contains(g.components[j].id));
        assert(g.dep_edge(u, j));
        assert(g.components[j].dependents.contains(g.components[u].id));
    }
    assert forall|u: int, s: Seq<char>|
        0 <= u < g.n() && (#[trigger] g.components[u].dependents.contains(s)) implies exists|
        j: int,
    |
        0 <= j < g.n() && (#[trigger] g.components[j].id) == s
            && g.components[j].dependencies.contains(g.components[u].id) by {
        let j = choose|j: int| 0 <= j < g.n() && (#[trigger] g.components[j].id) == s;
        assert(g.components[u].dependents.contains(g.components[j].id));
        assert(g.dep_edge(j, u));
        assert(g.components[j].dependencies.contains(g.components[u].id));
    }
}

} // verus!
