//! The topological sequencer: Kahn's algorithm over the dependency graph,
//! emitting the lexicographically least ready component at every step so the
//! order is reproducible, and appending the members of cycles (which never
//! become ready) in ascending id order.

use vstd::prelude::*;

use crate::component::ComponentModel;
use crate::graph::{lemma_contains_push, DependencyGraph, GraphModel};
use crate::sorting::sort_ids;
use crate::strid::{lex_leq_fn, lex_lt, str_lt};

verus! {

/// A vector of machine integers as unbounded integers.
pub open spec fn nums_view(v: Seq<usize>) -> Seq<int> {
    Seq::new(v.len(), |i: int| v[i] as int)
}

/// How many edges of `eidx` leave `v`: the dependencies the sequencer must
/// emit before `v` itself becomes ready.
pub open spec fn count_out(eidx: Seq<(int, int)>, v: int) -> int
    decreases eidx.len(),
{
    if eidx.len() == 0 {
        0
    } else {
        count_out(eidx.drop_last(), v) + if eidx.last().0 == v {
            1int
        } else {
            0int
        }
    }
}

/// The pending-dependency degree of every component, counting each edge
/// separately.
pub open spec fn init_indeg(eidx: Seq<(int, int)>, n: int) -> Seq<int> {
    Seq::new(n as nat, |v: int| count_out(eidx, v))
}

proof fn lemma_count_out_take(eidx: Seq<(int, int)>, k: int, v: int)
    requires
        0 <= k < eidx.len(),
    ensures
        count_out(eidx.take(k + 1), v) == count_out(eidx.take(k), v) + if eidx[k].0 == v {
            1int
        } else {
            0int
        },
{
    assert(eidx.take(k + 1).drop_last() =~= eidx.take(k));
    assert(eidx.take(k + 1).last() == eidx[k]);
}

proof fn lemma_count_out_bounds(eidx: Seq<(int, int)>, v: int)
    ensures
        0 <= count_out(eidx, v) <= eidx.len(),
    decreases eidx.len(),
{
    if eidx.len() > 0 {
        lemma_count_out_bounds(eidx.drop_last(), v);
    }
}

/// Component `v` is ready: still unemitted, with no unprocessed incoming
/// edge.
pub open spec fn is_ready(
    comps: Seq<ComponentModel>,
    indeg: Seq<int>,
    done: Seq<bool>,
    v: int,
) -> bool {
    0 <= v < comps.len() && !done[v] && indeg[v] == 0
}

/// The ready component with the lexicographically least id among the first
/// `upto` components.
pub open spec fn min_ready_upto(
    comps: Seq<ComponentModel>,
    indeg: Seq<int>,
    done: Seq<bool>,
    upto: int,
) -> Option<int>
    decreases upto,
{
    if upto <= 0 {
        None
    } else {
        let prev = min_ready_upto(comps, indeg, done, upto - 1);
        let i = upto - 1;
        if !done[i] && indeg[i] == 0 {
            match prev {
                None => Some(i),
                Some(j) => if lex_lt(comps[i].id, comps[j].id) {
                    Some(i)
                } else {
                    Some(j)
                },
            }
        } else {
            prev
        }
    }
}

pub proof fn lemma_min_ready_props(
    comps: Seq<ComponentModel>,
    indeg: Seq<int>,
    done: Seq<bool>,
    upto: int,
)
    requires
        upto <= comps.len(),
    ensures
        match min_ready_upto(comps, indeg, done, upto) {
            Some(u) => 0 <= u < upto && !done[u] && indeg[u] == 0,
            None => forall|k: int| 0 <= k < upto ==> !(#[trigger] is_ready(comps, indeg, done, k)),
        },
    decreases upto,
{
    if upto > 0 {
        lemma_min_ready_props(comps, indeg, done, upto - 1);
    }
}

/// The degrees after processing every edge into the emitted component `u`
/// once: each such edge came from a component that depended on `u`, whose
/// pending count drops by one. A decrement never crosses zero; in a
/// well-formed run each edge is processed exactly once, so the guard is
/// never the deciding case.
pub open spec fn dec_out(indeg: Seq<int>, eidx: Seq<(int, int)>, u: int) -> Seq<int>
    decreases eidx.len(),
{
    if eidx.len() == 0 {
        indeg
    } else {
        let prev = dec_out(indeg, eidx.drop_last(), u);
        let e = eidx.last();
        if e.1 == u && 0 <= e.0 < prev.len() && prev[e.0] > 0 {
            prev.update(e.0, prev[e.0] - 1)
        } else {
            prev
        }
    }
}

proof fn lemma_dec_out_take(indeg: Seq<int>, eidx: Seq<(int, int)>, u: int, k: int)
    requires
        0 <= k < eidx.len(),
    ensures
        dec_out(indeg, eidx.take(k + 1), u) == ({
            let prev = dec_out(indeg, eidx.take(k), u);
            let e = eidx[k];
            if e.1 == u && 0 <= e.0 < prev.len() && prev[e.0] > 0 {
                prev.update(e.0, prev[e.0] - 1)
            } else {
                prev
            }
        }),
{
    assert(eidx.take(k + 1).drop_last() =~= eidx.take(k));
    assert(eidx.take(k + 1).last() == eidx[k]);
}

proof fn lemma_dec_out_len(indeg: Seq<int>, eidx: Seq<(int, int)>, u: int)
    ensures
        dec_out(indeg, eidx, u).len() == indeg.len(),
    decreases eidx.len(),
{
    if eidx.len() > 0 {
        lemma_dec_out_len(indeg, eidx.drop_last(), u);
    }
}

/// How many components are still unemitted.
pub open spec fn count_false(s: Seq<bool>) -> int
    decreases s.len(),
{
    if s.len() == 0 {
        0
    } else {
        count_false(s.drop_last()) + if s.last() {
            0int
        } else {
            1int
        }
    }
}

/// The unemitted count sits between zero and the length.
pub proof fn lemma_count_false_bounds_pub(s: Seq<bool>)
    ensures
        0 <= count_false(s) <= s.len(),
{
    lemma_count_false_bounds(s);
}

proof fn lemma_count_false_bounds(s: Seq<bool>)
    ensures
        0 <= count_false(s) <= s.len(),
    decreases s.len(),
{
    if s.len() > 0 {
        lemma_count_false_bounds(s.drop_last());
    }
}

pub proof fn lemma_count_false_update(s: Seq<bool>, i: int)
    requires
        0 <= i < s.len(),
        !s[i],
    ensures
        count_false(s.update(i, true)) == count_false(s) - 1,
    decreases s.len(),
{
    if i == s.len() - 1 {
        assert(s.update(i, true).drop_last() =~= s.drop_last());
    } else {
        assert(s.update(i, true).drop_last() =~= s.drop_last().update(i, true));
        lemma_count_false_update(s.drop_last(), i);
    }
}

proof fn lemma_count_false_take(s: Seq<bool>, v: int)
    requires
        0 <= v < s.len(),
    ensures
        count_false(s.take(v + 1)) == count_false(s.take(v)) + if s[v] {
            0int
        } else {
            1int
        },
{
    assert(s.take(v + 1).drop_last() =~= s.take(v));
    assert(s.take(v + 1).last() == s[v]);
}

/// The indices emitted by Kahn's algorithm, lexicographically least ready
/// component first.
pub open spec fn spec_kahn(
    comps: Seq<ComponentModel>,
    eidx: Seq<(int, int)>,
    indeg: Seq<int>,
    done: Seq<bool>,
) -> Seq<int>
    decreases count_false(done),
    when done.len() == comps.len()
    via spec_kahn_decreases
{
    match min_ready_upto(comps, indeg, done, comps.len() as int) {
        None => Seq::empty(),
        Some(u) => seq![u] + spec_kahn(comps, eidx, dec_out(indeg, eidx, u), done.update(u, true)),
    }
}

#[via_fn]
proof fn spec_kahn_decreases(
    comps: Seq<ComponentModel>,
    eidx: Seq<(int, int)>,
    indeg: Seq<int>,
    done: Seq<bool>,
) {
    lemma_min_ready_props(comps, indeg, done, comps.len() as int);
    lemma_count_false_bounds(done);
    match min_ready_upto(comps, indeg, done, comps.len() as int) {
        Some(u) => {
            lemma_count_false_update(done, u);
            lemma_count_false_bounds(done.update(u, true));
        },
        None => {},
    }
}

/// The ids of the components at the given indices.
pub open spec fn ids_of(comps: Seq<ComponentModel>, idxs: Seq<int>) -> Seq<Seq<char>> {
    Seq::new(idxs.len(), |k: int| comps[idxs[k]].id)
}

/// The ids of the first `upto` components that were never emitted, in index
/// order.
pub open spec fn leftover_ids(comps: Seq<ComponentModel>, em: Seq<int>, upto: int) -> Seq<
    Seq<char>,
>
    decreases upto,
{
    if upto <= 0 {
        Seq::empty()
    } else {
        leftover_ids(comps, em, upto - 1) + if em.contains(upto - 1) {
            Seq::empty()
        } else {
            seq![comps[upto - 1].id]
        }
    }
}

/// The emission order of the whole graph.
pub open spec fn spec_emitted(g: GraphModel) -> Seq<int> {
    spec_kahn(
        g.components,
        g.edge_indices,
        init_indeg(g.edge_indices, g.n()),
        Seq::new(g.components.len(), |v: int| false),
    )
}

/// The full processing order: the emitted ids, then the ids that never
/// became ready (members of cycles), in ascending id order.
pub open spec fn spec_topo_ids(g: GraphModel) -> Seq<Seq<char>> {
    ids_of(g.components, spec_emitted(g)) + leftover_ids(g.components, spec_emitted(g), g.n())
        .sort_by(lex_leq_fn())
}

/// Whether the emitted order is degraded because of cycles.
pub open spec fn spec_cycles_present(g: GraphModel) -> bool {
    spec_emitted(g).len() < g.n()
}

/// Replaces one counter of an in-degree table.
fn set_num(v: &mut Vec<usize>, i: usize, x: usize)
    requires
        i < old(v).len(),
    ensures
        final(v)@ =~= old(v)@.update(i as int, x),
        final(v).len() == old(v).len(),
{
    v.remove(i);
    v.insert(i, x);
    proof {
        assert forall|k: int| 0 <= k < v@.len() implies v@[k] == old(v)@.update(i as int, x)[k] by {}
        assert(v@ =~= old(v)@.update(i as int, x));
    }
}

/// Marks one component as emitted.
pub(crate) fn set_flag(v: &mut Vec<bool>, i: usize)
    requires
        i < old(v).len(),
    ensures
        final(v)@ =~= old(v)@.update(i as int, true),
        final(v).len() == old(v).len(),
{
    v.remove(i);
    v.insert(i, true);
    proof {
        assert forall|k: int| 0 <= k < v@.len() implies v@[k] == old(v)@.update(
            i as int,
            true,
        )[k] by {}
        assert(v@ =~= old(v)@.update(i as int, true));
    }
}

/// Computes the in-degree of every component.
fn compute_indeg(g: &DependencyGraph) -> (r: Vec<usize>)
    requires
        g@.wf(),
    ensures
        r.len() == g.components.len(),
        nums_view(r@) =~= init_indeg(g@.edge_indices, g@.n()),
{
    let n = g.components.len();
    let m = g.edge_indices.len();
    let mut indeg: Vec<usize> = Vec::new();
    let mut i: usize = 0;
    while i < n
        invariant
            0 <= i <= n,
            indeg.len() == i,
            forall|v: int| 0 <= v < i ==> indeg@[v] == 0,
        decreases n - i,
    {
        indeg.push(0);
        i = i + 1;
    }
    let ghost eidx = g@.edge_indices;
    proof {
        assert(eidx.take(0int) =~= Seq::<(int, int)>::empty());
        assert forall|v: int| 0 <= v < n implies nums_view(indeg@)[v] == count_out(
            eidx.take(0int),
            v,
        ) by {}
    }
    let mut k: usize = 0;
    while k < m
        invariant
            0 <= k <= m,
            m == eidx.len(),
            g@.wf(),
            eidx == g@.edge_indices,
            m == g.edge_indices.len(),
            n == g.components.len(),
            indeg.len() == n,
            forall|v: int|
                0 <= v < n ==> #[trigger] nums_view(indeg@)[v] == count_out(
                    eidx.take(k as int),
                    v,
                ),
        decreases m - k,
    {
        let t = g.edge_indices[k].0;
        proof {
            assert(eidx[k as int] == (g.edge_indices@[k as int].0 as int, g.edge_indices@[
                k as int].1 as int));
            assert(0 <= eidx[k as int].0 < n);
            lemma_count_out_bounds(eidx.take(k as int), t as int);
            assert(nums_view(indeg@)[t as int] <= k);
        }
        let d = indeg[t];
        let ghost ipre = indeg@;
        set_num(&mut indeg, t, d + 1);
        proof {
            assert forall|v: int| 0 <= v < n implies #[trigger] nums_view(indeg@)[v] == count_out(
                eidx.take(k as int + 1),
                v,
            ) by {
                lemma_count_out_take(eidx, k as int, v);
                assert(nums_view(ipre)[v] == count_out(eidx.take(k as int), v));
                if v != t as int {
                    assert(indeg@[v] == ipre[v]);
                }
            }
        }
        k = k + 1;
    }
    proof {
        assert(eidx.take(m as int) =~= eidx);
        assert(nums_view(indeg@) =~= init_indeg(eidx, n as int));
    }
    indeg
}

/// Finds the ready component with the least id.
fn find_min_ready(g: &DependencyGraph, indeg: &Vec<usize>, done: &Vec<bool>) -> (r: Option<usize>)
    requires
        indeg.len() == g.components.len(),
        done.len() == g.components.len(),
    ensures
        match r {
            Some(u) => min_ready_upto(
                g@.components,
                nums_view(indeg@),
                done@,
                g@.n(),
            ) == Some(u as int),
            None => min_ready_upto(g@.components, nums_view(indeg@), done@, g@.n()) is None,
        },
{
    let n = g.components.len();
    let mut best: Option<usize> = None;
    let mut i: usize = 0;
    while i < n
        invariant
            0 <= i <= n,
            n == g.components.len(),
            indeg.len() == n,
            done.len() == n,
            match best {
                Some(b) => b < i && min_ready_upto(
                    g@.components,
                    nums_view(indeg@),
                    done@,
                    i as int,
                ) == Some(b as int),
                None => min_ready_upto(g@.components, nums_view(indeg@), done@, i as int) is None,
            },
        decreases n - i,
    {
        if !done[i] && indeg[i] == 0 {
            match best {
                None => {
                    best = Some(i);
                },
                Some(b) => {
                    proof {
                        assert(g@.components[i as int].id == g.components@[i as int].id@);
                        assert(g@.components[b as int].id == g.components@[b as int].id@);
                    }
                    if str_lt(g.components[i].id.as_str(), g.components[b].id.as_str()) {
                        best = Some(i);
                    }
                },
            }
        }
        i = i + 1;
    }
    best
}

/// Kahn's algorithm with a deterministic tie-break: repeatedly emit the
/// ready component with the lexicographically least id, then append every
/// component that never became ready (exactly the members of cycles) in
/// ascending id order. The result always lists every component exactly once;
/// the flag reports whether cycles degraded the order.
pub fn topological_order_of(g: &DependencyGraph) -> (r: (Vec<String>, bool))
    requires
        g@.wf(),
    ensures
        r.0.deep_view() == spec_topo_ids(g@),
        r.1 == spec_cycles_present(g@),
        r.0.len() == g.components.len(),
        forall|v: int| 0 <= v < g@.n() ==> r.0.deep_view().contains(g@.components[v].id),
{
    let ghost comps = g@.components;
    let ghost eidx = g@.edge_indices;
    let n = g.components.len();
    let mut indeg = compute_indeg(g);
    let mut done: Vec<bool> = Vec::new();
    let mut i: usize = 0;
    while i < n
        invariant
            0 <= i <= n,
            done.len() == i,
            forall|v: int| 0 <= v < i ==> !done@[v],
        decreases n - i,
    {
        done.push(false);
        i = i + 1;
    }
    let mut order: Vec<String> = Vec::new();
    let ghost mut em: Seq<int> = Seq::empty();
    let mut emitted_count: usize = 0;
    proof {
        assert(done@ =~= Seq::new(comps.len(), |v: int| false));
        assert(em + spec_kahn(comps, eidx, nums_view(indeg@), done@) =~= spec_emitted(g@));
        assert(order.deep_view() =~= ids_of(comps, em));
        lemma_count_false_bounds(done@);
        lemma_count_false_all(done@);
    }
    loop
        invariant
            n == g.components.len(),
            comps == g@.components,
            eidx == g@.edge_indices,
            g@.wf(),
            indeg.len() == n,
            done.len() == n,
            emitted_count == em.len(),
            emitted_count <= n,
            count_false(done@) == n - emitted_count,
            forall|k: int| 0 <= k < em.len() ==> 0 <= #[trigger] em[k] < n,
            forall|v: int| 0 <= v < n ==> (done@[v] == em.contains(v)),
            order.deep_view() == ids_of(comps, em),
            order.len() == emitted_count,
            spec_emitted(g@) == em + spec_kahn(comps, eidx, nums_view(indeg@), done@),
        ensures
            min_ready_upto(comps, nums_view(indeg@), done@, n as int) is None,
        decreases count_false(done@),
    {
        let picked = find_min_ready(g, &indeg, &done);
        match picked {
            None => {
                break ;
            },
            Some(u) => {
                proof {
                    lemma_min_ready_props(comps, nums_view(indeg@), done@, n as int);
                }
                // process every edge out of u
                let ghost indeg_pre = nums_view(indeg@);
                let m = g.edge_indices.len();
                let mut k: usize = 0;
                proof {
                    assert(eidx.take(0int) =~= Seq::<(int, int)>::empty());
                }
                while k < m
                    invariant
                        0 <= k <= m,
                        m == g.edge_indices.len(),
                        m == eidx.len(),
                        n == g.components.len(),
                        comps == g@.components,
                        eidx == g@.edge_indices,
                        g@.wf(),
                        u < n,
                        indeg.len() == n,
                        nums_view(indeg@) == dec_out(indeg_pre, eidx.take(k as int), u as int),
                    decreases m - k,
                {
                    proof {
                        lemma_dec_out_take(indeg_pre, eidx, u as int, k as int);
                        assert(eidx[k as int] == (g.edge_indices@[k as int].0 as int,
                        g.edge_indices@[k as int].1 as int));
                    }
                    let e = g.edge_indices[k];
                    if e.1 == u {
                        let t = e.0;
                        proof {
                            assert(0 <= eidx[k as int].0 < n);
                        }
                        let d = indeg[t];
                        if d > 0 {
                            set_num(&mut indeg, t, d - 1);
                        }
                        proof {
                            assert(nums_view(indeg@) =~= dec_out(
                                indeg_pre,
                                eidx.take(k as int + 1),
                                u as int,
                            ));
                        }
                    } else {
                        proof {
                            assert(nums_view(indeg@) =~= dec_out(
                                indeg_pre,
                                eidx.take(k as int + 1),
                                u as int,
                            ));
                        }
                    }
                    k = k + 1;
                }
                proof {
                    assert(eidx.take(m as int) =~= eidx);
                }
                let ghost done_pre = done@;
                let ghost order_dv = order.deep_view();
                set_flag(&mut done, u);
                order.push(g.components[u].id.clone());
                proof {
                    lemma_count_false_update(done_pre, u as int);
                    lemma_count_false_bounds(done@);
                }
                emitted_count = emitted_count + 1;
                proof {
                    let em2 = em.push(u as int);
                    assert forall|v: int| 0 <= v < n implies (done@[v] == em2.contains(v)) by {
                        lemma_contains_push(em, u as int, v);
                    }
                    assert(g@.components[u as int].id == g.components@[u as int].id@);
                    assert(order.deep_view() =~= order_dv.push(comps[u as int].id));
                    assert(order.deep_view() =~= ids_of(comps, em2));
                    assert(seq![u as int] + spec_kahn(
                        comps,
                        eidx,
                        nums_view(indeg@),
                        done@,
                    ) =~= em2.skip(em.len() as int) + spec_kahn(
                        comps,
                        eidx,
                        nums_view(indeg@),
                        done@,
                    ));
                    assert(em2 + spec_kahn(comps, eidx, nums_view(indeg@), done@) =~= em + (seq![
                        u as int,
                    ] + spec_kahn(comps, eidx, nums_view(indeg@), done@)));
                    em = em2;
                }
            },
        }
    }
    // the loop ended with nothing ready: whatever is unemitted sits on a
    // cycle; append it in ascending id order
    proof {
        assert(spec_kahn(comps, eidx, nums_view(indeg@), done@) =~= Seq::<int>::empty());
        assert(spec_emitted(g@) =~= em);
    }
    let mut rest: Vec<String> = Vec::new();
    let mut v: usize = 0;
    proof {
        assert(rest.deep_view() =~= leftover_ids(comps, em, 0int));
        assert(done@.take(0int) =~= Seq::<bool>::empty());
    }
    while v < n
        invariant
            0 <= v <= n,
            n == g.components.len(),
            comps == g@.components,
            done.len() == n,
            forall|w: int| 0 <= w < n ==> (done@[w] == em.contains(w)),
            rest.deep_view() == leftover_ids(comps, em, v as int),
            rest.len() as int == count_false(done@.take(v as int)),
        decreases n - v,
    {
        proof {
            lemma_count_false_take(done@, v as int);
        }
        if !done[v] {
            rest.push(g.components[v].id.clone());
            proof {
                assert(rest.deep_view() =~= leftover_ids(comps, em, v as int + 1));
            }
        } else {
            proof {
                assert(rest.deep_view() =~= leftover_ids(comps, em, v as int + 1));
            }
        }
        v = v + 1;
    }
    proof {
        assert(done@.take(n as int) =~= done@);
    }
    let ghost rest_raw = rest.deep_view();
    let mut tail = sort_ids(rest);
    let ghost tail0 = tail.deep_view();
    let cycles_present = tail.len() > 0;
    proof {
        assert(order.deep_view() + tail.deep_view() =~= spec_topo_ids(g@));
    }
    let ghost order_pre = order.deep_view();
    order.append(&mut tail);
    proof {
        assert(order.deep_view() =~= spec_topo_ids(g@));
        // every component id appears: emitted ones by their emission index,
        // the rest among the leftovers
        assert forall|w: int| 0 <= w < n implies order.deep_view().contains(
            comps[w].id,
        ) by {
            if em.contains(w) {
                let k = choose|k: int| 0 <= k < em.len() && em[k] == w;
                assert(order_pre[k] == comps[w].id);
                assert(order.deep_view()[k] == comps[w].id);
            } else {
                broadcast use vstd::seq_lib::group_to_multiset_ensures;

                lemma_leftover_contains(comps, em, n as int, w);
                assert(rest_raw.contains(comps[w].id));
                assert(rest_raw.to_multiset().count(comps[w].id) > 0);
                assert(tail0.contains(comps[w].id));
                let k = choose|k: int| 0 <= k < tail0.len() && tail0[k] == comps[w].id;
                assert(order.deep_view()[order_pre.len() + k] == comps[w].id);
            }
        }
    }
    (order, cycles_present)
}

proof fn lemma_count_false_all(s: Seq<bool>)
    requires
        forall|v: int| 0 <= v < s.len() ==> !s[v],
    ensures
        count_false(s) == s.len(),
    decreases s.len(),
{
    if s.len() > 0 {
        lemma_count_false_all(s.drop_last());
    }
}

/// An unemitted component's id stands among the leftovers.
proof fn lemma_leftover_contains(comps: Seq<ComponentModel>, em: Seq<int>, upto: int, w: int)
    requires
        0 <= w < upto,
        !em.contains(w),
    ensures
        leftover_ids(comps, em, upto).contains(comps[w].id),
    decreases upto,
{
    if w == upto - 1 {
        let l = leftover_ids(comps, em, upto);
        assert(l[l.len() - 1] == comps[w].id);
    } else {
        lemma_leftover_contains(comps, em, upto - 1, w);
        let prev = leftover_ids(comps, em, upto - 1);
        let k = choose|k: int| 0 <= k < prev.len() && prev[k] == comps[w].id;
        assert(leftover_ids(comps, em, upto)[k] == comps[w].id);
    }
}


/// How many edges leave `v` toward a component not yet emitted.
pub open spec fn undone_out(eidx: Seq<(int, int)>, done: Seq<bool>, v: int) -> int
    decreases eidx.len(),
{
    if eidx.len() == 0 {
        0
    } else {
        undone_out(eidx.drop_last(), done, v) + if eidx.last().0 == v && !done[eidx.last().1] {
            1int
        } else {
            0int
        }
    }
}

/// How many edges run from `v` to `u`.
pub open spec fn count_pair(eidx: Seq<(int, int)>, v: int, u: int) -> int
    decreases eidx.len(),
{
    if eidx.len() == 0 {
        0
    } else {
        count_pair(eidx.drop_last(), v, u) + if eidx.last() == (v, u) {
            1int
        } else {
            0int
        }
    }
}

proof fn lemma_undone_out_init(eidx: Seq<(int, int)>, done: Seq<bool>, v: int)
    requires
        forall|w: int| 0 <= w < done.len() ==> !done[w],
        forall|k: int|
            0 <= k < eidx.len() ==> 0 <= (#[trigger] eidx[k]).1 < done.len(),
    ensures
        undone_out(eidx, done, v) == count_out(eidx, v),
    decreases eidx.len(),
{
    if eidx.len() > 0 {
        lemma_undone_out_init(eidx.drop_last(), done, v);
        assert(eidx.last() == eidx[eidx.len() - 1]);
        assert forall|k: int| 0 <= k < eidx.drop_last().len() implies 0 <= (#[trigger]
        eidx.drop_last()[k]).1 < done.len() by {
            assert(eidx.drop_last()[k] == eidx[k]);
        }
    }
}

proof fn lemma_undone_out_mark(eidx: Seq<(int, int)>, done: Seq<bool>, u: int, v: int)
    requires
        0 <= u < done.len(),
        !done[u],
        forall|k: int|
            0 <= k < eidx.len() ==> 0 <= (#[trigger] eidx[k]).1 < done.len(),
    ensures
        undone_out(eidx, done.update(u, true), v) == undone_out(eidx, done, v) - count_pair(
            eidx,
            v,
            u,
        ),
    decreases eidx.len(),
{
    if eidx.len() > 0 {
        lemma_undone_out_mark(eidx.drop_last(), done, u, v);
        assert(eidx.last() == eidx[eidx.len() - 1]);
        assert forall|k: int| 0 <= k < eidx.drop_last().len() implies 0 <= (#[trigger]
        eidx.drop_last()[k]).1 < done.len() by {
            assert(eidx.drop_last()[k] == eidx[k]);
        }
    }
}

proof fn lemma_count_pair_le_undone(eidx: Seq<(int, int)>, done: Seq<bool>, v: int, u: int)
    requires
        !done[u],
    ensures
        count_pair(eidx, v, u) <= undone_out(eidx, done, v),
    decreases eidx.len(),
{
    if eidx.len() > 0 {
        lemma_count_pair_le_undone(eidx.drop_last(), done, v, u);
    }
}

/// Processing the edges into `u` subtracts exactly the edges from `v` to
/// `u`, with no decrement ever crossing zero.
proof fn lemma_dec_out_value(indeg: Seq<int>, eidx: Seq<(int, int)>, v: int, u: int)
    requires
        0 <= v < indeg.len(),
        indeg[v] >= count_pair(eidx, v, u),
        forall|w: int| 0 <= w < indeg.len() ==> #[trigger] indeg[w] >= count_pair(eidx, w, u),
        forall|k: int|
            0 <= k < eidx.len() ==> 0 <= (#[trigger] eidx[k]).0 < indeg.len(),
    ensures
        dec_out(indeg, eidx, u)[v] == indeg[v] - count_pair(eidx, v, u),
    decreases eidx.len(),
{
    if eidx.len() > 0 {
        let shorter = eidx.drop_last();
        assert forall|k: int| 0 <= k < shorter.len() implies 0 <= (#[trigger] shorter[k]).0
            < indeg.len() by {
            assert(shorter[k] == eidx[k]);
        }
        assert forall|w: int| 0 <= w < indeg.len() implies #[trigger] indeg[w] >= count_pair(
            shorter,
            w,
            u,
        ) by {
            lemma_count_pair_monotone(eidx, w, u);
        }
        lemma_dec_out_value(indeg, shorter, v, u);
        let e = eidx.last();
        assert(e == eidx[eidx.len() - 1]);
        if e.1 == u && e.0 != v {
            lemma_dec_out_value(indeg, shorter, e.0, u);
        }
        lemma_dec_out_len(indeg, shorter, u);
    }
}

proof fn lemma_count_pair_monotone(eidx: Seq<(int, int)>, v: int, u: int)
    requires
        eidx.len() > 0,
    ensures
        count_pair(eidx.drop_last(), v, u) <= count_pair(eidx, v, u),
{
}

/// A component with no unemitted dependencies has every dependency emitted.
proof fn lemma_undone_out_zero(eidx: Seq<(int, int)>, done: Seq<bool>, v: int)
    requires
        undone_out(eidx, done, v) >= 0,
        undone_out(eidx, done, v) == 0,
    ensures
        forall|k: int|
            0 <= k < eidx.len() && (#[trigger] eidx[k]).0 == v ==> done[eidx[k].1],
    decreases eidx.len(),
{
    if eidx.len() > 0 {
        lemma_undone_out_nonneg(eidx.drop_last(), done, v);
        lemma_undone_out_zero(eidx.drop_last(), done, v);
        assert forall|k: int|
            0 <= k < eidx.len() && (#[trigger] eidx[k]).0 == v implies done[eidx[k].1] by {
            if k < eidx.len() - 1 {
                assert(eidx.drop_last()[k] == eidx[k]);
            } else {
                assert(eidx.last() == eidx[k]);
            }
        }
    }
}

proof fn lemma_undone_out_nonneg(eidx: Seq<(int, int)>, done: Seq<bool>, v: int)
    ensures
        undone_out(eidx, done, v) >= 0,
    decreases eidx.len(),
{
    if eidx.len() > 0 {
        lemma_undone_out_nonneg(eidx.drop_last(), done, v);
    }
}

/// The sequencing invariant: whenever the pending-dependency counts agree
/// with the unemitted edge counts, everything the algorithm emits has each of
/// its dependencies either already emitted or emitted earlier in the run.
proof fn lemma_kahn_order(
    comps: Seq<ComponentModel>,
    eidx: Seq<(int, int)>,
    indeg: Seq<int>,
    done: Seq<bool>,
)
    requires
        done.len() == comps.len(),
        indeg.len() == comps.len(),
        forall|v: int|
            0 <= v < comps.len() ==> #[trigger] indeg[v] == undone_out(eidx, done, v),
        forall|k: int|
            0 <= k < eidx.len() ==> 0 <= (#[trigger] eidx[k]).0 < comps.len() && 0 <= eidx[k].1
                < comps.len(),
    ensures
        ({
            let em = spec_kahn(comps, eidx, indeg, done);
            forall|p: int, k: int|
                0 <= p < em.len() && 0 <= k < eidx.len() && (#[trigger] eidx[k]).0 == (
                #[trigger] em[p]) ==> done[eidx[k].1] || exists|q: int|
                    0 <= q < p && em[q] == eidx[k].1
        }),
    decreases count_false(done),
{
    lemma_min_ready_props(comps, indeg, done, comps.len() as int);
    lemma_count_false_bounds(done);
    match min_ready_upto(comps, indeg, done, comps.len() as int) {
        None => {},
        Some(u) => {
            lemma_count_false_update(done, u);
            let done2 = done.update(u, true);
            lemma_count_false_bounds(done2);
            let indeg2 = dec_out(indeg, eidx, u);
            lemma_dec_out_len(indeg, eidx, u);
            lemma_undone_out_nonneg(eidx, done, u);
            lemma_undone_out_zero(eidx, done, u);
            assert forall|v: int| 0 <= v < comps.len() implies #[trigger] indeg2[v]
                == undone_out(eidx, done2, v) by {
                lemma_count_pair_le_undone(eidx, done, v, u);
                lemma_undone_out_mark(eidx, done, u, v);
                assert forall|w: int| 0 <= w < indeg.len() implies #[trigger] indeg[w]
                    >= count_pair(eidx, w, u) by {
                    lemma_count_pair_le_undone(eidx, done, w, u);
                }
                lemma_dec_out_value(indeg, eidx, v, u);
            }
            lemma_kahn_order(comps, eidx, indeg2, done2);
            let em = spec_kahn(comps, eidx, indeg, done);
            let em2 = spec_kahn(comps, eidx, indeg2, done2);
            assert(em =~= seq![u] + em2);
            assert forall|p: int, k: int|
                0 <= p < em.len() && 0 <= k < eidx.len() && (#[trigger] eidx[k]).0 == (
                #[trigger] em[p]) implies done[eidx[k].1] || exists|q: int|
                0 <= q < p && em[q] == eidx[k].1 by {
                if p == 0 {
                    assert(em[0] == u);
                } else {
                    assert(em[p] == em2[p - 1]);
                    if !done[eidx[k].1] {
                        if done2[eidx[k].1] {
                            assert(eidx[k].1 == u);
                            assert(em[0] == eidx[k].1);
                        } else {
                            let q2 = choose|q2: int| 0 <= q2 < p - 1 && em2[q2] == eidx[k].1;
                            assert(em[q2 + 1] == eidx[k].1);
                        }
                    }
                }
            }
        },
    }
}

/// Dependencies before dependents: every component the sequencer emits comes
/// after each of its dependencies. (Components that never become ready sit
/// on or behind a cycle; they are appended afterwards in ascending id order
/// and carry no such guarantee — the documented degraded mode.)
pub proof fn lemma_order_respects_dependencies(g: GraphModel)
    requires
        g.wf(),
    ensures
        forall|p: int, k: int|
            0 <= p < spec_emitted(g).len() && 0 <= k < g.edge_indices.len() && (
            #[trigger] g.edge_indices[k]).0 == (#[trigger] spec_emitted(g)[p]) ==> exists|q: int|
                0 <= q < p && spec_emitted(g)[q] == g.edge_indices[k].1,
{
    let n = g.n();
    let done0 = Seq::new(g.components.len(), |v: int| false);
    let indeg0 = init_indeg(g.edge_indices, n);
    assert forall|v: int| 0 <= v < n implies #[trigger] indeg0[v] == undone_out(
        g.edge_indices,
        done0,
        v,
    ) by {
        lemma_undone_out_init(g.edge_indices, done0, v);
    }
    lemma_kahn_order(g.components, g.edge_indices, indeg0, done0);
}

} // verus!
