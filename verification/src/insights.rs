//! The insight generator: summary statistics derived from a finished graph.
//! Every field is a pure function of the graph, so recomputation always gives
//! the same value.

use vstd::prelude::*;
use vstd::multiset::Multiset;
use vstd::relations::{sorted_by, total_ordering};
use vstd::seq_lib::lemma_sorted_unique;

use crate::component::ComponentModel;
use crate::graph::{contains_id, DependencyGraph, GraphModel};
use crate::sorting::sort_ids;
use crate::strid::{lex_le, lex_leq_fn, lemma_lex_lt_asymmetric, lemma_lex_lt_transitive,
    lemma_lex_lt_trichotomy, str_le};

verus! {

/// A named architectural layer; an optional extension point, not filled in
/// by the core pipeline.
#[derive(Debug, PartialEq)]
pub struct ArchitecturalLayer {
    pub name: String,
    pub files: Vec<String>,
    pub description: String,
}

/// The model of a layer.
pub ghost struct LayerModel {
    pub name: Seq<char>,
    pub files: Seq<Seq<char>>,
    pub description: Seq<char>,
}

impl View for ArchitecturalLayer {
    type V = LayerModel;

    open spec fn view(&self) -> LayerModel {
        LayerModel {
            name: self.name@,
            files: self.files.deep_view(),
            description: self.description@,
        }
    }
}

impl DeepView for ArchitecturalLayer {
    type V = LayerModel;

    open spec fn deep_view(&self) -> LayerModel {
        self.view()
    }
}

/// Summary statistics over a finished graph.
#[derive(Debug, PartialEq)]
pub struct RepositoryInsights {
    pub total_files: usize,
    pub total_components: usize,
    pub most_complex_files: Vec<String>,
    pub most_connected_components: Vec<String>,
    pub architectural_layers: Vec<ArchitecturalLayer>,
    pub entry_points: Vec<String>,
    pub dependency_hotspots: Vec<String>,
}

/// The model of the insights.
#[verifier::ext_equal]
pub ghost struct InsightsModel {
    pub total_files: int,
    pub total_components: int,
    pub most_complex_files: Seq<Seq<char>>,
    pub most_connected_components: Seq<Seq<char>>,
    pub architectural_layers: Seq<LayerModel>,
    pub entry_points: Seq<Seq<char>>,
    pub dependency_hotspots: Seq<Seq<char>>,
}

impl View for RepositoryInsights {
    type V = InsightsModel;

    open spec fn view(&self) -> InsightsModel {
        InsightsModel {
            total_files: self.total_files as int,
            total_components: self.total_components as int,
            most_complex_files: self.most_complex_files.deep_view(),
            most_connected_components: self.most_connected_components.deep_view(),
            architectural_layers: self.architectural_layers.deep_view(),
            entry_points: self.entry_points.deep_view(),
            dependency_hotspots: self.dependency_hotspots.deep_view(),
        }
    }
}

/// The distinct file paths of the first `upto` components, in order of first
/// appearance.
pub open spec fn distinct_files(comps: Seq<ComponentModel>, upto: int) -> Seq<Seq<char>>
    decreases upto,
{
    if upto <= 0 {
        Seq::empty()
    } else {
        let prev = distinct_files(comps, upto - 1);
        if prev.contains(comps[upto - 1].file_path) {
            prev
        } else {
            prev.push(comps[upto - 1].file_path)
        }
    }
}

/// The ids of the first `upto` components with no dependencies, in index
/// order.
pub open spec fn entry_ids(comps: Seq<ComponentModel>, upto: int) -> Seq<Seq<char>>
    decreases upto,
{
    if upto <= 0 {
        Seq::empty()
    } else {
        entry_ids(comps, upto - 1) + if comps[upto - 1].dependencies.len() == 0 {
            seq![comps[upto - 1].id]
        } else {
            Seq::empty()
        }
    }
}

/// How connected a component is: dependencies plus dependents.
pub open spec fn conn_of(c: ComponentModel) -> int {
    c.dependencies.len() + c.dependents.len() as int
}

/// The connectivity ranking order: higher connection count first, ties by
/// ascending id.
pub open spec fn rank_le(a: (int, Seq<char>), b: (int, Seq<char>)) -> bool {
    a.0 > b.0 || (a.0 == b.0 && lex_le(a.1, b.1))
}

pub open spec fn rank_leq_fn() -> spec_fn((int, Seq<char>), (int, Seq<char>)) -> bool {
    |a: (int, Seq<char>), b: (int, Seq<char>)| rank_le(a, b)
}

pub proof fn lemma_rank_total_ordering()
    ensures
        total_ordering(rank_leq_fn()),
{
    let r = rank_leq_fn();
    assert forall|x: (int, Seq<char>)| #[trigger] r(x, x) by {}
    assert forall|x: (int, Seq<char>), y: (int, Seq<char>)| #[trigger] r(x, y) && #[trigger] r(
        y,
        x,
    ) implies x == y by {
        if x.0 == y.0 {
            if x.1 != y.1 {
                if crate::strid::lex_lt(x.1, y.1) {
                    lemma_lex_lt_asymmetric(x.1, y.1);
                }
            }
        }
    }
    assert forall|x: (int, Seq<char>), y: (int, Seq<char>), z: (int, Seq<char>)|
        #[trigger] r(x, y) && #[trigger] r(y, z) implies r(x, z) by {
        if x.0 == y.0 && y.0 == z.0 {
            if crate::strid::lex_lt(x.1, y.1) && crate::strid::lex_lt(y.1, z.1) {
                lemma_lex_lt_transitive(x.1, y.1, z.1);
            }
        }
    }
    assert forall|x: (int, Seq<char>), y: (int, Seq<char>)| #[trigger] r(x, y) || #[trigger] r(
        y,
        x,
    ) by {
        lemma_lex_lt_trichotomy(x.1, y.1);
    }
}

/// The connectivity pairs of every connected component, in index order.
pub open spec fn ranked_pairs(comps: Seq<ComponentModel>, upto: int) -> Seq<(int, Seq<char>)>
    decreases upto,
{
    if upto <= 0 {
        Seq::empty()
    } else {
        ranked_pairs(comps, upto - 1) + if conn_of(comps[upto - 1]) > 0 {
            seq![(conn_of(comps[upto - 1]), comps[upto - 1].id)]
        } else {
            Seq::empty()
        }
    }
}

/// The most connected components: every component with at least one
/// connection, ranked by descending connection count with ties broken by
/// ascending id, truncated to the top ten.
pub open spec fn spec_most_connected(g: GraphModel) -> Seq<Seq<char>> {
    let sorted = ranked_pairs(g.components, g.n()).sort_by(rank_leq_fn());
    Seq::new(if sorted.len() < 10 { sorted.len() } else { 10 }, |k: int| sorted[k].1)
}

/// The entry points: ids with no dependencies, in ascending id order.
pub open spec fn spec_entry_points(g: GraphModel) -> Seq<Seq<char>> {
    entry_ids(g.components, g.n()).sort_by(lex_leq_fn())
}

/// All insights of a finished graph.
pub open spec fn spec_insights(g: GraphModel) -> InsightsModel {
    InsightsModel {
        total_files: distinct_files(g.components, g.n()).len() as int,
        total_components: g.n(),
        most_complex_files: Seq::empty(),
        most_connected_components: spec_most_connected(g),
        architectural_layers: Seq::empty(),
        entry_points: spec_entry_points(g),
        dependency_hotspots: Seq::empty(),
    }
}

/// The machine view of a ranked pair list.
pub open spec fn ranked_view(v: Seq<(u128, String)>) -> Seq<(int, Seq<char>)> {
    Seq::new(v.len(), |k: int| (v[k].0 as int, v[k].1@))
}

/// Compares two ranked pairs: is `a` ranked at or before `b`?
fn rank_le_exec(a: &(u128, String), b: &(u128, String)) -> (r: bool)
    ensures
        r == rank_le((a.0 as int, a.1@), (b.0 as int, b.1@)),
{
    if a.0 > b.0 {
        true
    } else if a.0 == b.0 {
        str_le(a.1.as_str(), b.1.as_str())
    } else {
        false
    }
}

/// Sorts ranked pairs by descending connection count, ties by ascending id.
fn sort_ranked(v: Vec<(u128, String)>) -> (r: Vec<(u128, String)>)
    ensures
        ranked_view(r@) == ranked_view(v@).sort_by(rank_leq_fn()),
        r.len() == v.len(),
{
    broadcast use vstd::seq_lib::group_to_multiset_ensures;

    proof {
        lemma_rank_total_ordering();
    }
    let ghost goal = ranked_view(v@).to_multiset();
    let mut work = v;
    let mut out: Vec<(u128, String)> = Vec::new();
    proof {
        assert(ranked_view(out@) =~= Seq::<(int, Seq<char>)>::empty());
        assert(ranked_view(out@).to_multiset().add(ranked_view(work@).to_multiset()) =~= goal);
    }
    while work.len() > 0
        invariant
            ranked_view(out@).to_multiset().add(ranked_view(work@).to_multiset()) == goal,
            sorted_by(ranked_view(out@), rank_leq_fn()),
            forall|a: int, b: int|
                0 <= a < ranked_view(out@).len() && 0 <= b < ranked_view(work@).len() ==> rank_le(
                    ranked_view(out@)[a],
                    ranked_view(work@)[b],
                ),
        decreases work.len(),
    {
        let ghost outb = ranked_view(out@);
        let ghost workb = ranked_view(work@);
        let mut mi: usize = 0;
        let mut j: usize = 1;
        while j < work.len()
            invariant
                0 <= mi < j <= work.len(),
                work.len() > 0,
                workb == ranked_view(work@),
                forall|k: int| 0 <= k < j ==> rank_le(workb[mi as int], workb[k]),
            decreases work.len() - j,
        {
            let take_j = !rank_le_exec(&work[mi], &work[j]);
            proof {
                lemma_rank_total_ordering();
                assert(workb[mi as int] == (work@[mi as int].0 as int, work@[mi as int].1@));
                assert(workb[j as int] == (work@[j as int].0 as int, work@[j as int].1@));
                assert(rank_leq_fn()(workb[j as int], workb[mi as int]) || rank_leq_fn()(
                    workb[mi as int],
                    workb[j as int],
                ));
            }
            if take_j {
                proof {
                    assert forall|k: int| 0 <= k < j + 1 implies rank_le(
                        workb[j as int],
                        workb[k],
                    ) by {
                        assert(rank_le(workb[j as int], workb[mi as int]));
                        if k < j {
                            assert(rank_le(workb[mi as int], workb[k]));
                            assert(vstd::relations::transitive(rank_leq_fn()));
                            assert(rank_leq_fn()(workb[j as int], workb[mi as int])
                                && rank_leq_fn()(workb[mi as int], workb[k]));
                            assert(rank_leq_fn()(workb[j as int], workb[k]));
                        }
                    }
                }
                mi = j;
            }
            j = j + 1;
        }
        let x = work.remove(mi);
        proof {
            broadcast use vstd::seq_lib::group_to_multiset_ensures;
            broadcast use vstd::multiset::group_multiset_axioms;

            assert(ranked_view(work@) =~= workb.remove(mi as int));
            assert(workb[mi as int] == (x.0 as int, x.1@));
            assert(workb.to_multiset().count((x.0 as int, x.1@)) >= 1) by {
                assert(workb.contains((x.0 as int, x.1@)));
            }
        }
        out.push(x);
        proof {
            broadcast use vstd::seq_lib::group_to_multiset_ensures;
            broadcast use vstd::multiset::group_multiset_axioms;

            assert(ranked_view(out@) =~= outb.push((x.0 as int, x.1@)));
            assert(ranked_view(out@).to_multiset() =~= outb.to_multiset().insert(
                (x.0 as int, x.1@),
            ));
            assert(ranked_view(work@).to_multiset() =~= workb.to_multiset().remove(
                (x.0 as int, x.1@),
            ));
            assert(ranked_view(out@).to_multiset().add(ranked_view(work@).to_multiset())
                =~= goal);
            assert forall|a: int, b: int|
                0 <= a < ranked_view(out@).len() && 0 <= b
                    < ranked_view(work@).len() implies rank_le(
                ranked_view(out@)[a],
                ranked_view(work@)[b],
            ) by {
                assert(ranked_view(work@)[b] == if b < mi {
                    workb[b]
                } else {
                    workb[b + 1]
                });
                if a < outb.len() {
                    assert(rank_le(outb[a], ranked_view(work@)[b]));
                } else {
                    assert(ranked_view(out@)[a] == (x.0 as int, x.1@));
                }
            }
            assert forall|a: int, b: int|
                0 <= a < b < ranked_view(out@).len() implies rank_leq_fn()(
                ranked_view(out@)[a],
                ranked_view(out@)[b],
            ) by {
                if b == ranked_view(out@).len() - 1 {
                    assert(rank_le(outb[a], workb[mi as int]));
                }
            }
        }
    }
    proof {
        broadcast use vstd::seq_lib::group_to_multiset_ensures;
        broadcast use vstd::multiset::group_multiset_axioms;

        lemma_rank_total_ordering();
        assert(ranked_view(work@) =~= Seq::<(int, Seq<char>)>::empty());
        assert(ranked_view(work@).to_multiset() =~= Multiset::<(int, Seq<char>)>::empty());
        assert(ranked_view(out@).to_multiset() =~= goal);
        ranked_view(v@).lemma_sort_by_ensures(rank_leq_fn());
        lemma_sorted_unique(
            ranked_view(out@),
            ranked_view(v@).sort_by(rank_leq_fn()),
            rank_leq_fn(),
        );
        assert(ranked_view(out@) =~= ranked_view(v@).sort_by(rank_leq_fn()));
        assert(ranked_view(v@).to_multiset().len() == ranked_view(v@).len());
        assert(ranked_view(out@).to_multiset().len() == ranked_view(out@).len());
    }
    out
}

/// The distinct file paths of the graph, in order of first appearance.
pub fn distinct_file_paths(g: &DependencyGraph) -> (r: Vec<String>)
    ensures
        r.deep_view() == distinct_files(g@.components, g@.n()),
{
    let n = g.components.len();
    let ghost comps = g@.components;
    let mut files: Vec<String> = Vec::new();
    let mut i: usize = 0;
    proof {
        assert(files.deep_view() =~= distinct_files(comps, 0int));
    }
    while i < n
        invariant
            0 <= i <= n,
            n == g.components.len(),
            comps == g@.components,
            files.deep_view() == distinct_files(comps, i as int),
        decreases n - i,
    {
        proof {
            assert(g@.components[i as int].file_path == g.components@[i as int].file_path@);
        }
        if !contains_id(&files, g.components[i].file_path.as_str()) {
            files.push(g.components[i].file_path.clone());
            proof {
                assert(files.deep_view() =~= distinct_files(comps, i as int + 1));
            }
        } else {
            proof {
                assert(files.deep_view() =~= distinct_files(comps, i as int + 1));
            }
        }
        i = i + 1;
    }
    files
}

/// Computes the insights of a finished graph.
pub fn insights_of(g: &DependencyGraph) -> (r: RepositoryInsights)
    requires
        g@.wf(),
    ensures
        r@ == spec_insights(g@),
{
    let n = g.components.len();
    let ghost comps = g@.components;
    let files = distinct_file_paths(g);
    let total_files = files.len();
    proof {
        assert(files.deep_view().len() == distinct_files(comps, n as int).len());
    }
    // entry points, ascending
    let mut entries: Vec<String> = Vec::new();
    let mut i2: usize = 0;
    proof {
        assert(entries.deep_view() =~= entry_ids(comps, 0int));
    }
    while i2 < n
        invariant
            0 <= i2 <= n,
            n == g.components.len(),
            comps == g@.components,
            entries.deep_view() == entry_ids(comps, i2 as int),
        decreases n - i2,
    {
        proof {
            assert(g@.components[i2 as int].dependencies == g.components@[
                i2 as int].dependencies.deep_view());
            assert(g@.components[i2 as int].id == g.components@[i2 as int].id@);
        }
        if g.components[i2].dependencies.len() == 0 {
            entries.push(g.components[i2].id.clone());
            proof {
                assert(entries.deep_view() =~= entry_ids(comps, i2 as int + 1));
            }
        } else {
            proof {
                assert(entries.deep_view() =~= entry_ids(comps, i2 as int + 1));
            }
        }
        i2 = i2 + 1;
    }
    let entry_points = sort_ids(entries);
    // connectivity ranking
    let mut pairs: Vec<(u128, String)> = Vec::new();
    let mut i3: usize = 0;
    proof {
        assert(ranked_view(pairs@) =~= ranked_pairs(comps, 0int));
    }
    while i3 < n
        invariant
            0 <= i3 <= n,
            n == g.components.len(),
            comps == g@.components,
            ranked_view(pairs@) == ranked_pairs(comps, i3 as int),
        decreases n - i3,
    {
        proof {
            assert(g@.components[i3 as int].dependencies == g.components@[
                i3 as int].dependencies.deep_view());
            assert(g@.components[i3 as int].dependents == g.components@[
                i3 as int].dependents.deep_view());
            assert(g@.components[i3 as int].id == g.components@[i3 as int].id@);
        }
        let c = &g.components[i3];
        let conn: u128 = (c.dependencies.len() as u128) + (c.dependents.len() as u128);
        if conn > 0 {
            pairs.push((conn, c.id.clone()));
            proof {
                assert(ranked_view(pairs@) =~= ranked_pairs(comps, i3 as int + 1));
            }
        } else {
            proof {
                assert(ranked_view(pairs@) =~= ranked_pairs(comps, i3 as int + 1));
            }
        }
        i3 = i3 + 1;
    }
    let sorted = sort_ranked(pairs);
    let limit = if sorted.len() < 10 {
        sorted.len()
    } else {
        10
    };
    let mut most_connected: Vec<String> = Vec::new();
    let mut k: usize = 0;
    while k < limit
        invariant
            0 <= k <= limit,
            limit <= sorted.len(),
            ranked_view(sorted@) == ranked_pairs(comps, n as int).sort_by(rank_leq_fn()),
            most_connected.deep_view().len() == k,
            forall|t: int|
                0 <= t < k ==> most_connected.deep_view()[t] == ranked_view(sorted@)[t].1,
        decreases limit - k,
    {
        let ghost mcb = most_connected.deep_view();
        most_connected.push(sorted[k].1.clone());
        proof {
            assert(most_connected.deep_view() =~= mcb.push(sorted@[k as int].1@));
            assert(ranked_view(sorted@)[k as int].1 == sorted@[k as int].1@);
            assert forall|t: int| 0 <= t < k + 1 implies most_connected.deep_view()[t]
                == ranked_view(sorted@)[t].1 by {
                if t < k {
                    assert(most_connected.deep_view()[t] == mcb[t]);
                }
            }
        }
        k = k + 1;
    }
    proof {
        assert(most_connected.deep_view() =~= spec_most_connected(g@));
    }
    RepositoryInsights {
        total_files,
        total_components: n,
        most_complex_files: Vec::new(),
        most_connected_components: most_connected,
        architectural_layers: Vec::new(),
        entry_points,
        dependency_hotspots: Vec::new(),
    }
}

} // verus!
