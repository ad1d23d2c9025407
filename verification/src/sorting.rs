//! Sorting of id lists into ascending lexicographic order, pinned to the
//! canonical `sort_by` of the sequence library.

use vstd::prelude::*;
use vstd::multiset::Multiset;
use vstd::relations::sorted_by;
use vstd::seq_lib::lemma_sorted_unique;

use crate::strid::{lex_le, lex_leq_fn, lemma_lex_total_ordering};

verus! {

/// Sorts a list of ids into ascending lexicographic order.
pub fn sort_ids(v: Vec<String>) -> (r: Vec<String>)
    ensures
        r.deep_view() == v.deep_view().sort_by(lex_leq_fn()),
        sorted_by(r.deep_view(), lex_leq_fn()),
        r.deep_view().to_multiset() == v.deep_view().to_multiset(),
        r.len() == v.len(),
{
    broadcast use vstd::seq_lib::group_to_multiset_ensures;

    proof {
        lemma_lex_total_ordering();
    }
    let ghost goal = v.deep_view().to_multiset();
    let mut work = v;
    let mut out: Vec<String> = Vec::new();
    proof {
        assert(out.deep_view() =~= Seq::<Seq<char>>::empty());
        assert(out.deep_view().to_multiset().add(work.deep_view().to_multiset()) =~= goal);
    }
    while work.len() > 0
        invariant
            out.deep_view().to_multiset().add(work.deep_view().to_multiset()) == goal,
            sorted_by(out.deep_view(), lex_leq_fn()),
            forall|a: int, b: int|
                0 <= a < out.deep_view().len() && 0 <= b < work.deep_view().len() ==> lex_le(
                    out.deep_view()[a],
                    work.deep_view()[b],
                ),
        decreases work.len(),
    {
        let ghost outb = out.deep_view();
        let ghost workb = work.deep_view();
        // find the least remaining id
        let mut mi: usize = 0;
        let mut j: usize = 1;
        while j < work.len()
            invariant
                0 <= mi < j <= work.len(),
                work.len() > 0,
                workb == work.deep_view(),
                forall|k: int|
                    0 <= k < j ==> lex_le(work.deep_view()[mi as int], work.deep_view()[k]),
            decreases work.len() - j,
        {
            if str_lt_on(&work, j, mi) {
                proof {
                    assert forall|k: int| 0 <= k < j + 1 implies lex_le(
                        workb[j as int],
                        workb[k],
                    ) by {
                        if k < j && crate::strid::lex_lt(workb[mi as int], workb[k]) {
                            crate::strid::lemma_lex_lt_transitive(
                                workb[j as int],
                                workb[mi as int],
                                workb[k],
                            );
                        }
                    }
                }
                mi = j;
            } else {
                proof {
                    crate::strid::lemma_lex_lt_trichotomy(workb[j as int], workb[mi as int]);
                }
            }
            j = j + 1;
        }
        let x = work.remove(mi);
        proof {
            broadcast use vstd::seq_lib::group_to_multiset_ensures;
            broadcast use vstd::multiset::group_multiset_axioms;

            assert(work.deep_view() =~= workb.remove(mi as int));
            assert(workb[mi as int] == x@);
            assert(workb.to_multiset().count(x@) >= 1) by {
                assert(workb.contains(x@));
            }
        }
        out.push(x);
        proof {
            broadcast use vstd::seq_lib::group_to_multiset_ensures;
            broadcast use vstd::multiset::group_multiset_axioms;

            assert(out.deep_view() =~= outb.push(x@));
            assert(out.deep_view().to_multiset() =~= outb.to_multiset().insert(x@));
            assert(work.deep_view().to_multiset() =~= workb.to_multiset().remove(x@));
            assert(out.deep_view().to_multiset().add(work.deep_view().to_multiset()) =~= goal);
            // the appended id keeps the output sorted and below the rest
            assert forall|a: int, b: int|
                0 <= a < out.deep_view().len() && 0 <= b
                    < work.deep_view().len() implies lex_le(
                out.deep_view()[a],
                work.deep_view()[b],
            ) by {
                assert(work.deep_view()[b] == if b < mi { workb[b] } else { workb[b + 1] });
                if a < outb.len() {
                    assert(lex_le(outb[a], work.deep_view()[b]));
                } else {
                    assert(out.deep_view()[a] == x@);
                }
            }
            assert forall|a: int, b: int|
                0 <= a < b < out.deep_view().len() implies lex_leq_fn()(
                out.deep_view()[a],
                out.deep_view()[b],
            ) by {
                if b == out.deep_view().len() - 1 {
                    assert(lex_le(outb[a], workb[mi as int]));
                }
            }
        }
    }
    proof {
        broadcast use vstd::seq_lib::group_to_multiset_ensures;
        broadcast use vstd::multiset::group_multiset_axioms;

        assert(work.deep_view() =~= Seq::<Seq<char>>::empty());
        assert(work.deep_view().to_multiset() =~= Multiset::<Seq<char>>::empty());
        assert(out.deep_view().to_multiset() =~= goal);
        lemma_lex_total_ordering();
        out.deep_view().lemma_sort_by_ensures(lex_leq_fn());
        assert(out.deep_view().sort_by(lex_leq_fn()) =~= out.deep_view()) by {
            lemma_sorted_unique(
                out.deep_view().sort_by(lex_leq_fn()),
                out.deep_view(),
                lex_leq_fn(),
            );
        }
    }
    proof {
        lemma_sort_unique_of(v.deep_view(), out.deep_view());
    }
    out
}

/// Strict comparison of two elements of an id list.
fn str_lt_on(v: &Vec<String>, a: usize, b: usize) -> (r: bool)
    requires
        a < v.len(),
        b < v.len(),
    ensures
        r == crate::strid::lex_lt(v.deep_view()[a as int], v.deep_view()[b as int]),
{
    crate::strid::str_lt(v[a].as_str(), v[b].as_str())
}

/// A sorted sequence with the same contents as `a` is `a.sort_by` itself.
proof fn lemma_sort_unique_of(a: Seq<Seq<char>>, b: Seq<Seq<char>>)
    requires
        sorted_by(b, lex_leq_fn()),
        a.to_multiset() == b.to_multiset(),
    ensures
        b == a.sort_by(lex_leq_fn()),
        b.len() == a.len(),
{
    broadcast use vstd::seq_lib::group_to_multiset_ensures;

    lemma_lex_total_ordering();
    a.lemma_sort_by_ensures(lex_leq_fn());
    lemma_sorted_unique(b, a.sort_by(lex_leq_fn()), lex_leq_fn());
    assert(b =~= a.sort_by(lex_leq_fn()));
    assert(a.to_multiset().len() == a.len());
    assert(b.to_multiset().len() == b.len());
}

} // verus!
