//! The cycle detector: strongly-connected-component analysis over the
//! dependency graph. Every maximal group of mutually reachable components
//! with at least one internal edge is emitted as one cycle; the detection is
//! exhaustive and deterministic, stated over a reachability relation and
//! proved sound and complete for the search that computes it.

use vstd::prelude::*;

use crate::component::ComponentModel;
use crate::graph::{DependencyGraph, GraphModel};
use crate::topo::count_false;

verus! {

/// A walk through the graph: at least one node, every node in range, every
/// consecutive pair an edge.
pub open spec fn is_path(g: GraphModel, p: Seq<int>) -> bool {
    &&& p.len() >= 1
    &&& forall|i: int| 0 <= i < p.len() ==> 0 <= #[trigger] p[i] < g.n()
    &&& forall|i: int| 0 <= i < p.len() - 1 ==> g.dep_edge(#[trigger] p[i], p[i + 1])
}

/// `b` can be reached from `a` along zero or more edges.
pub open spec fn reaches(g: GraphModel, a: int, b: int) -> bool {
    exists|p: Seq<int>| is_path(g, p) && p[0] == a && p.last() == b
}

pub proof fn lemma_reaches_refl(g: GraphModel, a: int)
    requires
        0 <= a < g.n(),
    ensures
        reaches(g, a, a),
{
    let p = seq![a];
    assert(is_path(g, p) && p[0] == a && p.last() == a);
}

/// Reachability extends along one more edge.
pub proof fn lemma_reaches_step(g: GraphModel, a: int, b: int, c: int)
    requires
        reaches(g, a, b),
        g.dep_edge(b, c),
        0 <= c < g.n(),
    ensures
        reaches(g, a, c),
{
    let p = choose|p: Seq<int>| is_path(g, p) && p[0] == a && p.last() == b;
    let q = p.push(c);
    assert forall|i: int| 0 <= i < q.len() - 1 implies g.dep_edge(#[trigger] q[i], q[i + 1]) by {
        if i < p.len() - 1 {
            assert(q[i] == p[i] && q[i + 1] == p[i + 1]);
        } else {
            assert(q[i] == b && q[i + 1] == c);
        }
    }
    assert(is_path(g, q) && q[0] == a && q.last() == c);
}

pub proof fn lemma_reaches_trans(g: GraphModel, a: int, b: int, c: int)
    requires
        reaches(g, a, b),
        reaches(g, b, c),
    ensures
        reaches(g, a, c),
{
    let q = choose|q: Seq<int>| is_path(g, q) && q[0] == b && q.last() == c;
    lemma_reaches_trans_aux(g, a, b, q);
}

proof fn lemma_reaches_trans_aux(g: GraphModel, a: int, b: int, q: Seq<int>)
    requires
        reaches(g, a, b),
        is_path(g, q),
        q[0] == b,
    ensures
        reaches(g, a, q.last()),
    decreases q.len(),
{
    if q.len() == 1 {
    } else {
        lemma_reaches_step(g, a, b, q[1]);
        lemma_reaches_trans_aux(g, a, q[1], q.drop_first());
        assert(q.drop_first().last() == q.last());
    }
}

/// A nonempty journey decomposes into its first edge and the rest.
pub proof fn lemma_reaches_first_step(g: GraphModel, a: int, b: int)
    requires
        reaches(g, a, b),
        a != b,
    ensures
        exists|x: int|
            0 <= x < g.n() && #[trigger] g.dep_edge(a, x) && reaches(g, x, b),
{
    let p = choose|p: Seq<int>| is_path(g, p) && p[0] == a && p.last() == b;
    let x = p[1];
    let q = p.drop_first();
    assert(is_path(g, q) && q[0] == x && q.last() == b);
    assert(g.dep_edge(a, x) && reaches(g, x, b));
}

/// A set of nodes closed under successors contains everything reachable from
/// its members.
proof fn lemma_closed_under_reach(g: GraphModel, vis: Seq<bool>, a: int, b: int)
    requires
        vis.len() == g.n(),
        0 <= a < g.n(),
        vis[a],
        forall|x: int, y: int|
            0 <= x < g.n() && 0 <= y < g.n() && vis[x] && #[trigger] g.dep_edge(x, y) ==> vis[y],
        reaches(g, a, b),
    ensures
        0 <= b < g.n() && vis[b],
{
    let p = choose|p: Seq<int>| is_path(g, p) && p[0] == a && p.last() == b;
    lemma_closed_under_path(g, vis, p);
}

proof fn lemma_closed_under_path(g: GraphModel, vis: Seq<bool>, p: Seq<int>)
    requires
        vis.len() == g.n(),
        is_path(g, p),
        vis[p[0]],
        forall|x: int, y: int|
            0 <= x < g.n() && 0 <= y < g.n() && vis[x] && #[trigger] g.dep_edge(x, y) ==> vis[y],
    ensures
        vis[p.last()],
    decreases p.len(),
{
    if p.len() > 1 {
        assert(g.dep_edge(p[0], p[1]));
        lemma_closed_under_path(g, vis, p.drop_first());
        assert(p.drop_first().last() == p.last());
    }
}

/// Whether an index stands in a worklist.
pub open spec fn in_stack(stack: Seq<usize>, x: int) -> bool {
    exists|t: int| 0 <= t < stack.len() && #[trigger] stack[t] as int == x
}

/// Computes the set of components reachable from `v`, itself included.
pub fn reach_from(g: &DependencyGraph, v: usize) -> (row: Vec<bool>)
    requires
        g@.wf(),
        v < g.components.len(),
    ensures
        row.len() == g.components.len(),
        forall|j: int| 0 <= j < g@.n() ==> (row@[j] == reaches(g@, v as int, j)),
{
    let n = g.components.len();
    let m = g.edge_indices.len();
    let ghost eidx = g@.edge_indices;
    let mut vis: Vec<bool> = Vec::new();
    let mut i: usize = 0;
    while i < n
        invariant
            0 <= i <= n,
            vis.len() == i,
            forall|w: int| 0 <= w < i ==> !vis@[w],
        decreases n - i,
    {
        vis.push(false);
        i = i + 1;
    }
    crate::topo::set_flag(&mut vis, v);
    let mut stack: Vec<usize> = Vec::new();
    stack.push(v);
    proof {
        lemma_reaches_refl(g@, v as int);
        assert(stack@[0int] as int == v as int);
        assert(in_stack(stack@, v as int));
    }
    loop
        invariant
            n == g.components.len(),
            m == g.edge_indices.len(),
            m == eidx.len(),
            eidx == g@.edge_indices,
            g@.wf(),
            v < n,
            vis.len() == n,
            vis@[v as int],
            forall|x: int| 0 <= x < n && #[trigger] vis@[x] ==> reaches(g@, v as int, x),
            forall|t: int| 0 <= t < stack@.len() ==> (#[trigger] stack@[t]) < n && vis@[stack@[t] as int],
            forall|k: int|
                0 <= k < m && vis@[(#[trigger] eidx[k]).0] && !in_stack(stack@, eidx[k].0)
                    ==> vis@[eidx[k].1],
        ensures
            forall|k: int|
                0 <= k < m && vis@[(#[trigger] eidx[k]).0] ==> vis@[eidx[k].1],
            vis.len() == n,
            vis@[v as int],
            forall|x: int| 0 <= x < n && #[trigger] vis@[x] ==> reaches(g@, v as int, x),
        decreases count_false(vis@), stack.len(),
    {
        let ghost stack_pre = stack@;
        let popped = stack.pop();
        match popped {
            None => {
                proof {
                    assert(stack@.len() == 0);
                    assert forall|k: int|
                        0 <= k < m && vis@[(#[trigger] eidx[k]).0] implies vis@[eidx[k].1] by {
                        assert(!in_stack(stack@, eidx[k].0));
                    }
                }
                break ;
            },
            Some(w) => {
                let ghost stack0 = stack@;
                let ghost vis0 = vis@;
                proof {
                    assert(stack0 == stack_pre.drop_last());
                    assert(w == stack_pre.last());
                    assert(stack_pre[stack_pre.len() - 1] == w);
                    // nodes that were exempt before the pop, other than w,
                    // stay exempt
                    assert forall|kk: int|
                        0 <= kk < m && vis0[(#[trigger] eidx[kk]).0] && eidx[kk].0 != w as int
                            && !in_stack(stack0, eidx[kk].0) implies vis0[eidx[kk].1] by {
                        let x = eidx[kk].0;
                        if in_stack(stack_pre, x) {
                            let t = choose|t: int|
                                0 <= t < stack_pre.len() && stack_pre[t] as int == x;
                            if t < stack_pre.len() - 1 {
                                assert(stack0[t] as int == x);
                                assert(in_stack(stack0, x));
                            } else {
                                assert(x == w as int);
                            }
                        }
                    }
                }
                let mut k: usize = 0;
                while k < m
                    invariant
                        0 <= k <= m,
                        n == g.components.len(),
                        m == g.edge_indices.len(),
                        m == eidx.len(),
                        eidx == g@.edge_indices,
                        g@.wf(),
                        v < n,
                        w < n,
                        vis.len() == n,
                        vis@[v as int],
                        vis@[w as int],
                        reaches(g@, v as int, w as int),
                        forall|x: int| 0 <= x < n && #[trigger] vis@[x] ==> reaches(g@, v as int, x),
                        forall|t: int|
                            0 <= t < stack@.len() ==> (#[trigger] stack@[t]) < n && vis@[stack@[t] as int],
                        // monotone growth of the visited set
                        vis0.len() == n,
                        forall|x: int| 0 <= x < n && vis0[x] ==> vis@[x],
                        // every other node's closure obligation is intact
                        forall|kk: int|
                            0 <= kk < m && vis0[(#[trigger] eidx[kk]).0] && eidx[kk].0 != w as int
                                && !in_stack(stack0, eidx[kk].0) ==> vis@[eidx[kk].1],
                        // newly visited nodes are all on the stack
                        forall|x: int| 0 <= x < n && vis@[x] && !vis0[x] ==> in_stack(stack@, x),
                        // the stack only grew
                        forall|x: int| in_stack(stack0, x) ==> in_stack(stack@, x),
                        // w's own edges processed so far
                        forall|kk: int|
                            0 <= kk < k && (#[trigger] eidx[kk]).0 == w as int ==> vis@[eidx[kk].1],
                        // termination bookkeeping
                        count_false(vis@) <= count_false(vis0),
                        stack@.len() - stack0.len() == count_false(vis0) - count_false(vis@),
                    decreases m - k,
                {
                    proof {
                        assert(eidx[k as int] == (g.edge_indices@[k as int].0 as int,
                        g.edge_indices@[k as int].1 as int));
                    }
                    let e = g.edge_indices[k];
                    if e.0 == w {
                        let t = e.1;
                        proof {
                            assert(0 <= eidx[k as int].1 < n);
                        }
                        if !vis[t] {
                            let ghost vis_b = vis@;
                            let ghost stack_b = stack@;
                            crate::topo::set_flag(&mut vis, t);
                            stack.push(t);
                            proof {
                                crate::topo::lemma_count_false_update(vis_b, t as int);
                                lemma_reaches_step(g@, v as int, w as int, t as int);
                                assert(stack@[stack@.len() - 1] as int == t as int);
                                assert(in_stack(stack@, t as int));
                                assert forall|x: int| in_stack(stack_b, x) implies in_stack(
                                    stack@,
                                    x,
                                ) by {
                                    let tt = choose|tt: int|
                                        0 <= tt < stack_b.len() && stack_b[tt] as int == x;
                                    assert(stack@[tt] as int == x);
                                }
                            }
                        }
                    }
                    k = k + 1;
                }
                proof {
                    crate::topo::lemma_count_false_bounds_pub(vis@);
                    crate::topo::lemma_count_false_bounds_pub(vis0);
                    // every edge out of w is now satisfied, and no other
                    // node's obligation was lost
                    assert forall|kk: int|
                        0 <= kk < m && vis@[(#[trigger] eidx[kk]).0] && !in_stack(
                            stack@,
                            eidx[kk].0,
                        ) implies vis@[eidx[kk].1] by {
                        let x = eidx[kk].0;
                        if x == w as int {
                        } else if vis0[x] {
                            assert(!in_stack(stack0, x));
                        } else {
                            assert(in_stack(stack@, x));
                        }
                    }
                }
            },
        }
    }
    proof {
        assert forall|j: int| 0 <= j < g@.n() implies (vis@[j] == reaches(
            g@,
            v as int,
            j,
        )) by {
            if reaches(g@, v as int, j) {
                assert forall|x: int, y: int|
                    0 <= x < g@.n() && 0 <= y < g@.n() && vis@[x] && #[trigger] g@.dep_edge(
                        x,
                        y,
                    ) implies vis@[y] by {
                    let kk = choose|kk: int|
                        0 <= kk < g@.edge_indices.len() && g@.edge_indices[kk] == (x, y);
                    assert(vis@[eidx[kk].0]);
                }
                lemma_closed_under_reach(g@, vis@, v as int, j);
            }
        }
    }
    vis
}


/// Two components sit in the same strongly-connected component.
pub open spec fn same_scc(g: GraphModel, a: int, b: int) -> bool {
    reaches(g, a, b) && reaches(g, b, a)
}

/// The component takes part in some circular dependency: an edge leaves it
/// and comes back.
pub open spec fn spec_in_cycle(g: GraphModel, v: int) -> bool {
    exists|w: int| 0 <= w < g.n() && #[trigger] g.dep_edge(v, w) && reaches(g, w, v)
}

/// The ids of the first `upto` components in the same strongly-connected
/// component as `i`, in index order.
pub open spec fn members_upto(g: GraphModel, i: int, upto: int) -> Seq<Seq<char>>
    decreases upto,
{
    if upto <= 0 {
        Seq::empty()
    } else {
        members_upto(g, i, upto - 1) + if same_scc(g, i, upto - 1) {
            seq![g.components[upto - 1].id]
        } else {
            Seq::empty()
        }
    }
}

/// The least index of its strongly-connected component, when that component
/// is a true cycle: this index speaks for the cycle in the output.
pub open spec fn is_cycle_rep(g: GraphModel, i: int) -> bool {
    &&& 0 <= i < g.n()
    &&& spec_in_cycle(g, i)
    &&& forall|j: int| 0 <= j < i ==> !same_scc(g, j, i)
}

/// The representatives of all cycles among the first `upto` components,
/// ascending.
pub open spec fn cycle_reps_upto(g: GraphModel, upto: int) -> Seq<int>
    decreases upto,
{
    if upto <= 0 {
        Seq::empty()
    } else {
        cycle_reps_upto(g, upto - 1) + if is_cycle_rep(g, upto - 1) {
            seq![upto - 1]
        } else {
            Seq::empty()
        }
    }
}

/// All cycles of the graph: one entry per strongly-connected component that
/// has an internal edge, members in index order, cycles in order of their
/// least member.
pub open spec fn spec_cycles(g: GraphModel) -> Seq<Seq<Seq<char>>> {
    Seq::new(
        cycle_reps_upto(g, g.n()).len(),
        |a: int| members_upto(g, cycle_reps_upto(g, g.n())[a], g.n()),
    )
}

pub proof fn lemma_reps_props(g: GraphModel, upto: int)
    ensures
        forall|a: int|
            0 <= a < cycle_reps_upto(g, upto).len() ==> 0 <= #[trigger] cycle_reps_upto(g, upto)[a]
                < upto && is_cycle_rep(g, cycle_reps_upto(g, upto)[a]),
        forall|a: int, b: int|
            0 <= a < b < cycle_reps_upto(g, upto).len() ==> cycle_reps_upto(g, upto)[a]
                < cycle_reps_upto(g, upto)[b],
    decreases upto,
{
    if upto > 0 {
        lemma_reps_props(g, upto - 1);
        let prev = cycle_reps_upto(g, upto - 1);
        let cur = cycle_reps_upto(g, upto);
        assert forall|a: int| 0 <= a < cur.len() implies 0 <= #[trigger] cur[a] < upto
            && is_cycle_rep(g, cur[a]) by {
            if a < prev.len() {
                assert(cur[a] == prev[a]);
            } else {
                assert(cur[a] == upto - 1);
            }
        }
        assert forall|a: int, b: int| 0 <= a < b < cur.len() implies cur[a] < cur[b] by {
            assert(cur[a] == prev[a]);
            if b < prev.len() {
                assert(cur[b] == prev[b]);
            } else {
                assert(cur[b] == upto - 1);
            }
        }
    }
}

/// What membership in an emitted cycle means.
pub proof fn lemma_members_meaning(g: GraphModel, i: int, upto: int, s: Seq<char>)
    ensures
        members_upto(g, i, upto).contains(s) <==> exists|j: int|
            0 <= j < upto && #[trigger] same_scc(g, i, j) && g.components[j].id == s,
    decreases upto,
{
    if upto > 0 {
        lemma_members_meaning(g, i, upto - 1, s);
        let prev = members_upto(g, i, upto - 1);
        let cur = members_upto(g, i, upto);
        if same_scc(g, i, upto - 1) && g.components[upto - 1].id == s {
            assert(cur[cur.len() - 1] == s);
        }
        if cur.contains(s) {
            let k = choose|k: int| 0 <= k < cur.len() && cur[k] == s;
            if k < prev.len() {
                assert(prev.contains(s));
            } else {
                assert(same_scc(g, i, upto - 1) && g.components[upto - 1].id == s);
            }
        }
        if exists|j: int|
            0 <= j < upto && #[trigger] same_scc(g, i, j) && g.components[j].id == s {
            let j = choose|j: int|
                0 <= j < upto && #[trigger] same_scc(g, i, j) && g.components[j].id == s;
            if j < upto - 1 {
                assert(prev.contains(s));
                let k = choose|k: int| 0 <= k < prev.len() && prev[k] == s;
                assert(cur[k] == s);
            }
        }
    }
}

/// The cycle-disjointness invariant: no component id stands in two different
/// cycles of the same graph.
pub proof fn lemma_cycles_disjoint(g: GraphModel)
    requires
        g.wf(),
    ensures
        forall|a: int, b: int, s: Seq<char>|
            0 <= a < b < spec_cycles(g).len() ==> !((#[trigger] spec_cycles(g)[a].contains(s))
                && (#[trigger] spec_cycles(g)[b].contains(s))),
{
    let n = g.n();
    let reps = cycle_reps_upto(g, n);
    lemma_reps_props(g, n);
    assert forall|a: int, b: int, s: Seq<char>|
        0 <= a < b < spec_cycles(g).len() implies !((#[trigger] spec_cycles(g)[a].contains(s))
        && (#[trigger] spec_cycles(g)[b].contains(s))) by {
        if spec_cycles(g)[a].contains(s) && spec_cycles(g)[b].contains(s) {
            let ra = reps[a];
            let rb = reps[b];
            assert(ra < rb);
            lemma_members_meaning(g, ra, n, s);
            lemma_members_meaning(g, rb, n, s);
            let j1 = choose|j: int|
                0 <= j < n && #[trigger] same_scc(g, ra, j) && g.components[j].id == s;
            let j2 = choose|j: int|
                0 <= j < n && #[trigger] same_scc(g, rb, j) && g.components[j].id == s;
            assert(j1 == j2);
            lemma_reaches_trans(g, ra, j1, rb);
            lemma_reaches_trans(g, rb, j1, ra);
            assert(same_scc(g, ra, rb));
            assert(!same_scc(g, ra, rb));
        }
    }
}

/// Builds the full reachability table.
fn reach_table(g: &DependencyGraph) -> (rows: Vec<Vec<bool>>)
    requires
        g@.wf(),
    ensures
        rows.len() == g.components.len(),
        forall|v: int, j: int|
            0 <= v < g@.n() && 0 <= j < g@.n() ==> ((#[trigger] rows@[v]@[j]) == reaches(g@, v, j)),
        forall|v: int| 0 <= v < g@.n() ==> (#[trigger] rows@[v]).len() == g@.n(),
{
    let n = g.components.len();
    let mut rows: Vec<Vec<bool>> = Vec::new();
    let mut v: usize = 0;
    while v < n
        invariant
            0 <= v <= n,
            n == g.components.len(),
            g@.wf(),
            rows.len() == v,
            forall|w: int, j: int|
                0 <= w < v && 0 <= j < n ==> ((#[trigger] rows@[w]@[j]) == reaches(g@, w, j)),
            forall|w: int| 0 <= w < v ==> (#[trigger] rows@[w]).len() == n,
        decreases n - v,
    {
        let row = reach_from(g, v);
        rows.push(row);
        v = v + 1;
    }
    rows
}

/// Whether component `v` takes part in a circular dependency, decided from
/// the reachability table.
fn in_cycle_exec(g: &DependencyGraph, rows: &Vec<Vec<bool>>, v: usize) -> (r: bool)
    requires
        g@.wf(),
        v < g.components.len(),
        rows.len() == g.components.len(),
        forall|x: int, j: int|
            0 <= x < g@.n() && 0 <= j < g@.n() ==> ((#[trigger] rows@[x]@[j]) == reaches(g@, x, j)),
        forall|x: int| 0 <= x < g@.n() ==> (#[trigger] rows@[x]).len() == g@.n(),
    ensures
        r == spec_in_cycle(g@, v as int),
{
    let ghost eidx = g@.edge_indices;
    let m = g.edge_indices.len();
    let mut k: usize = 0;
    while k < m
        invariant
            0 <= k <= m,
            m == g.edge_indices.len(),
            m == eidx.len(),
            eidx == g@.edge_indices,
            g@.wf(),
            v < g.components.len(),
            rows.len() == g.components.len(),
            forall|x: int, j: int|
                0 <= x < g@.n() && 0 <= j < g@.n() ==> ((#[trigger] rows@[x]@[j]) == reaches(
                    g@,
                    x,
                    j,
                )),
            forall|x: int| 0 <= x < g@.n() ==> (#[trigger] rows@[x]).len() == g@.n(),
            forall|kk: int|
                0 <= kk < k ==> !((#[trigger] eidx[kk]).0 == v as int && reaches(
                    g@,
                    eidx[kk].1,
                    v as int,
                )),
        decreases m - k,
    {
        proof {
            assert(eidx[k as int] == (g.edge_indices@[k as int].0 as int, g.edge_indices@[
                k as int].1 as int));
            assert(0 <= eidx[k as int].0 < g@.n() && 0 <= eidx[k as int].1 < g@.n());
        }
        let e = g.edge_indices[k];
        if e.0 == v {
            if rows[e.1][v] {
                proof {
                    assert(g@.dep_edge(v as int, eidx[k as int].1)) by {
                        assert(eidx[k as int] == (v as int, eidx[k as int].1));
                    }
                    assert(reaches(g@, eidx[k as int].1, v as int));
                }
                return true;
            }
        }
        k = k + 1;
    }
    proof {
        if spec_in_cycle(g@, v as int) {
            let w = choose|w: int|
                0 <= w < g@.n() && #[trigger] g@.dep_edge(v as int, w) && reaches(
                    g@,
                    w,
                    v as int,
                );
            let kk = choose|kk: int|
                0 <= kk < eidx.len() && eidx[kk] == (v as int, w);
            assert(!(eidx[kk].0 == v as int && reaches(g@, eidx[kk].1, v as int)));
        }
    }
    false
}

/// Detects every cycle of the graph: for each strongly-connected component
/// with an internal edge, one group holding its members' ids in index order;
/// groups ordered by their least member. The groups are pairwise disjoint.
pub fn detect_cycles_of(g: &DependencyGraph) -> (r: Vec<Vec<String>>)
    requires
        g@.wf(),
    ensures
        r.deep_view() == spec_cycles(g@),
{
    let n = g.components.len();
    let rows = reach_table(g);
    let mut out: Vec<Vec<String>> = Vec::new();
    let mut i: usize = 0;
    proof {
        assert(out.deep_view() =~= Seq::<Seq<Seq<char>>>::empty());
        assert(out.deep_view() =~= Seq::new(
            cycle_reps_upto(g@, 0int).len(),
            |a: int| members_upto(g@, cycle_reps_upto(g@, 0int)[a], g@.n()),
        ));
    }
    while i < n
        invariant
            0 <= i <= n,
            n == g.components.len(),
            g@.wf(),
            rows.len() == n,
            forall|x: int, j: int|
                0 <= x < g@.n() && 0 <= j < g@.n() ==> ((#[trigger] rows@[x]@[j]) == reaches(
                    g@,
                    x,
                    j,
                )),
            forall|x: int| 0 <= x < g@.n() ==> (#[trigger] rows@[x]).len() == g@.n(),
            out.deep_view() == Seq::new(
                cycle_reps_upto(g@, i as int).len(),
                |a: int| members_upto(g@, cycle_reps_upto(g@, i as int)[a], g@.n()),
            ),
        decreases n - i,
    {
        let ghost reps_pre = cycle_reps_upto(g@, i as int);
        let in_cycle = in_cycle_exec(g, &rows, i);
        let mut minimal = true;
        if in_cycle {
            // is any smaller index in the same strongly-connected component?
            let mut j: usize = 0;
            while j < i
                invariant
                    0 <= j <= i < n,
                    n == g.components.len(),
                    g@.wf(),
                    rows.len() == n,
                    forall|x: int, jj: int|
                        0 <= x < g@.n() && 0 <= jj < g@.n() ==> ((#[trigger] rows@[x]@[jj])
                            == reaches(g@, x, jj)),
                    forall|x: int| 0 <= x < g@.n() ==> (#[trigger] rows@[x]).len() == g@.n(),
                    minimal ==> forall|jj: int| 0 <= jj < j ==> !same_scc(g@, jj, i as int),
                    !minimal ==> exists|jj: int| 0 <= jj < j && same_scc(g@, jj, i as int),
                decreases i - j,
            {
                if minimal {
                    if rows[i][j] && rows[j][i] {
                        proof {
                            assert(same_scc(g@, j as int, i as int));
                        }
                        minimal = false;
                    }
                }
                j = j + 1;
            }
        }
        if in_cycle && minimal {
            // collect the members of this cycle
            let mut members: Vec<String> = Vec::new();
            let mut j: usize = 0;
            proof {
                assert(members.deep_view() =~= members_upto(g@, i as int, 0int));
            }
            while j < n
                invariant
                    0 <= j <= n,
                    i < n,
                    n == g.components.len(),
                    g@.wf(),
                    rows.len() == n,
                    forall|x: int, jj: int|
                        0 <= x < g@.n() && 0 <= jj < g@.n() ==> ((#[trigger] rows@[x]@[jj])
                            == reaches(g@, x, jj)),
                    forall|x: int| 0 <= x < g@.n() ==> (#[trigger] rows@[x]).len() == g@.n(),
                    members.deep_view() == members_upto(g@, i as int, j as int),
                decreases n - j,
            {
                if rows[i][j] && rows[j][i] {
                    members.push(g.components[j].id.clone());
                    proof {
                        assert(g@.components[j as int].id == g.components@[j as int].id@);
                        assert(members.deep_view() =~= members_upto(g@, i as int, j as int + 1));
                    }
                } else {
                    proof {
                        assert(members.deep_view() =~= members_upto(g@, i as int, j as int + 1));
                    }
                }
                j = j + 1;
            }
            let ghost outb = out.deep_view();
            let ghost mem_dv = members.deep_view();
            out.push(members);
            proof {
                assert(is_cycle_rep(g@, i as int));
                let reps2 = cycle_reps_upto(g@, i as int + 1);
                assert(reps2 =~= reps_pre.push(i as int));
                assert(out.deep_view() =~= outb.push(mem_dv));
                assert(mem_dv == members_upto(g@, i as int, g@.n()));
                assert forall|a: int| 0 <= a < reps2.len() implies out.deep_view()[a]
                    == members_upto(g@, reps2[a], g@.n()) by {
                    if a < reps_pre.len() {
                        assert(reps2[a] == reps_pre[a]);
                        assert(out.deep_view()[a] == outb[a]);
                    } else {
                        assert(reps2[a] == i as int);
                        assert(out.deep_view()[a] == mem_dv);
                    }
                }
                assert(out.deep_view() =~= Seq::new(
                    cycle_reps_upto(g@, i as int + 1).len(),
                    |a: int| members_upto(g@, cycle_reps_upto(g@, i as int + 1)[a], g@.n()),
                ));
            }
        } else {
            proof {
                assert(!is_cycle_rep(g@, i as int));
                let reps2 = cycle_reps_upto(g@, i as int + 1);
                assert(reps2 =~= reps_pre);
                assert forall|a: int| 0 <= a < reps2.len() implies out.deep_view()[a]
                    == members_upto(g@, reps2[a], g@.n()) by {
                    assert(reps2[a] == reps_pre[a]);
                }
                assert(out.deep_view() =~= Seq::new(
                    cycle_reps_upto(g@, i as int + 1).len(),
                    |a: int| members_upto(g@, cycle_reps_upto(g@, i as int + 1)[a], g@.n()),
                ));
            }
        }
        i = i + 1;
    }
    proof {
        assert(out.deep_view() =~= spec_cycles(g@));
    }
    out
}


/// Being on a cycle carries over within a strongly-connected component.
proof fn lemma_in_cycle_same_scc(g: GraphModel, a: int, b: int)
    requires
        spec_in_cycle(g, a),
        same_scc(g, a, b),
    ensures
        spec_in_cycle(g, b),
{
    if a == b {
    } else {
        lemma_reaches_first_step(g, b, a);
        let x = choose|x: int|
            0 <= x < g.n() && #[trigger] g.dep_edge(b, x) && reaches(g, x, a);
        lemma_reaches_trans(g, x, a, b);
        assert(g.dep_edge(b, x) && reaches(g, x, b));
    }
}

/// Below every component of a strongly-connected component sits a least one.
proof fn lemma_exists_least_of_scc(g: GraphModel, v: int, c: int)
    requires
        0 <= c,
        same_scc(g, c, v),
    ensures
        exists|r: int|
            0 <= r && (#[trigger] same_scc(g, r, v)) && forall|j: int|
                0 <= j < r ==> !same_scc(g, j, v),
    decreases c,
{
    if forall|j: int| 0 <= j < c ==> !same_scc(g, j, v) {
        assert(same_scc(g, c, v) && forall|j: int| 0 <= j < c ==> !same_scc(g, j, v));
    } else {
        let j = choose|j: int| 0 <= j < c && same_scc(g, j, v);
        lemma_exists_least_of_scc(g, v, j);
    }
}

/// Every representative index is listed.
proof fn lemma_reps_complete(g: GraphModel, upto: int, i: int)
    requires
        0 <= i < upto,
        is_cycle_rep(g, i),
    ensures
        exists|a: int|
            0 <= a < cycle_reps_upto(g, upto).len() && #[trigger] cycle_reps_upto(g, upto)[a]
                == i,
    decreases upto,
{
    let cur = cycle_reps_upto(g, upto);
    let prev = cycle_reps_upto(g, upto - 1);
    if i == upto - 1 {
        assert(cur[prev.len() as int] == i);
    } else {
        lemma_reps_complete(g, upto - 1, i);
        let a = choose|a: int| 0 <= a < prev.len() && prev[a] == i;
        assert(cur[a] == i);
    }
}

/// The detection is exhaustive: the cycles together hold exactly the ids of
/// the components that take part in some circular dependency — no more, no
/// less.
pub proof fn lemma_cycles_exhaustive(g: GraphModel)
    requires
        g.wf(),
    ensures
        forall|v: int|
            0 <= v < g.n() ==> (spec_in_cycle(g, v) <==> exists|a: int|
                0 <= a < spec_cycles(g).len() && (#[trigger] spec_cycles(g)[a]).contains(
                    g.components[v].id,
                )),
{
    let n = g.n();
    let reps = cycle_reps_upto(g, n);
    lemma_reps_props(g, n);
    assert forall|v: int| 0 <= v < n implies (spec_in_cycle(g, v) <==> exists|a: int|
        0 <= a < spec_cycles(g).len() && (#[trigger] spec_cycles(g)[a]).contains(
            g.components[v].id,
        )) by {
        if spec_in_cycle(g, v) {
            lemma_reaches_refl(g, v);
            assert(same_scc(g, v, v));
            lemma_exists_least_of_scc(g, v, v);
            let r = choose|r: int|
                0 <= r && (#[trigger] same_scc(g, r, v)) && forall|j: int|
                    0 <= j < r ==> !same_scc(g, j, v);
            assert(r <= v);
            lemma_in_cycle_same_scc(g, v, r);
            assert forall|j: int| 0 <= j < r implies !same_scc(g, j, r) by {
                if same_scc(g, j, r) {
                    lemma_reaches_trans(g, j, r, v);
                    lemma_reaches_trans(g, v, r, j);
                    assert(same_scc(g, j, v));
                }
            }
            assert(is_cycle_rep(g, r));
            lemma_reps_complete(g, n, r);
            let a = choose|a: int| 0 <= a < reps.len() && #[trigger] reps[a] == r;
            lemma_members_meaning(g, r, n, g.components[v].id);
            assert(same_scc(g, r, v) && g.components[v].id == g.components[v].id);
            assert(spec_cycles(g)[a] == members_upto(g, r, n));
            assert(spec_cycles(g)[a].contains(g.components[v].id));
        }
        if exists|a: int|
            0 <= a < spec_cycles(g).len() && (#[trigger] spec_cycles(g)[a]).contains(
                g.components[v].id,
            ) {
            let a = choose|a: int|
                0 <= a < spec_cycles(g).len() && (#[trigger] spec_cycles(g)[a]).contains(
                    g.components[v].id,
                );
            let r = reps[a];
            lemma_members_meaning(g, r, n, g.components[v].id);
            let j = choose|j: int|
                0 <= j < n && #[trigger] same_scc(g, r, j) && g.components[j].id
                    == g.components[v].id;
            assert(j == v);
            lemma_in_cycle_same_scc(g, r, v);
        }
    }
}

} // verus!
