//! Sorting index lists by an integer rank.
use vstd::prelude::*;
use vstd::relations::sorted_by;
use vstd::relations::total_ordering;
use vstd::seq_lib::lemma_sorted_unique;

verus! {

/// `a` stands no later than `b`: by rank first, by index among equal ranks.
pub open spec fn rank_le(ranks: Seq<i64>, a: usize, b: usize) -> bool {
    ranks[a as int] < ranks[b as int] || (ranks[a as int] == ranks[b as int] && a <= b)
}

/// The indices `ids` by rising rank, equal ranks by rising index. On a rising list of indices
/// this is the stable sort by rank.
pub open spec fn by_rank(ids: Seq<usize>, ranks: Seq<i64>) -> Seq<usize> {
    ids.sort_by(|a: usize, b: usize| rank_le(ranks, a, b))
}

/// What makes a list the sorted one.
pub proof fn lemma_by_rank(ids: Seq<usize>, ranks: Seq<i64>)
    ensures
        by_rank(ids, ranks).to_multiset() == ids.to_multiset(),
        by_rank(ids, ranks).len() == ids.len(),
        forall|i: int, j: int|
            0 <= i < j < ids.len() ==> rank_le(ranks, by_rank(ids, ranks)[i], by_rank(ids, ranks)[j]),
{
    let leq = |a: usize, b: usize| rank_le(ranks, a, b);
    assert(total_ordering(leq));
    ids.lemma_sort_by_ensures(leq);
    ids.to_multiset_ensures();
    by_rank(ids, ranks).to_multiset_ensures();
    assert forall|i: int, j: int| 0 <= i < j < ids.len() implies rank_le(
        ranks,
        by_rank(ids, ranks)[i],
        by_rank(ids, ranks)[j],
    ) by {
        assert(leq(by_rank(ids, ranks)[i], by_rank(ids, ranks)[j]));
    }
}

/// Along the sorted list the ranks rise, and among equal ranks the indices do.
pub proof fn lemma_ranks_rise(ids: Seq<usize>, ranks: Seq<i64>, i: int, j: int)
    requires
        0 <= i < j < ids.len(),
    ensures
        by_rank(ids, ranks).len() == ids.len(),
        ranks[by_rank(ids, ranks)[i] as int] <= ranks[by_rank(ids, ranks)[j] as int],
        ranks[by_rank(ids, ranks)[i] as int] == ranks[by_rank(ids, ranks)[j] as int] ==> by_rank(
            ids,
            ranks,
        )[i] <= by_rank(ids, ranks)[j],
{
    lemma_by_rank(ids, ranks);
    assert(rank_le(ranks, by_rank(ids, ranks)[i], by_rank(ids, ranks)[j]));
}

/// Every list that holds the same indices in rank order is the sorted list.
pub proof fn lemma_by_rank_unique(ids: Seq<usize>, ranks: Seq<i64>, out: Seq<usize>)
    requires
        out.to_multiset() == ids.to_multiset(),
        forall|i: int, j: int| 0 <= i < j < out.len() ==> rank_le(ranks, out[i], out[j]),
    ensures
        out == by_rank(ids, ranks),
{
    let leq = |a: usize, b: usize| rank_le(ranks, a, b);
    assert(total_ordering(leq));
    ids.lemma_sort_by_ensures(leq);
    assert(sorted_by(out, leq));
    lemma_sorted_unique(out, by_rank(ids, ranks), leq);
}

/// Sorting neither loses nor adds an index.
pub proof fn lemma_by_rank_members(ids: Seq<usize>, ranks: Seq<i64>)
    ensures
        forall|p: usize| by_rank(ids, ranks).contains(p) <==> ids.contains(p),
        ids.no_duplicates() ==> by_rank(ids, ranks).no_duplicates(),
{
    lemma_by_rank(ids, ranks);
    let out = by_rank(ids, ranks);
    ids.to_multiset_ensures();
    out.to_multiset_ensures();
    assert forall|p: usize| out.contains(p) <==> ids.contains(p) by {
        assert(out.contains(p) <==> out.to_multiset().count(p) > 0);
        assert(ids.contains(p) <==> ids.to_multiset().count(p) > 0);
    }
    if ids.no_duplicates() {
        ids.lemma_multiset_has_no_duplicates();
        out.lemma_multiset_has_no_duplicates_conv();
    }
}

/// Sorts the indices `ids` by their rank, equal ranks by index.
pub fn sort_by_rank(ids: &Vec<usize>, ranks: &Vec<i64>) -> (out: Vec<usize>)
    requires
        forall|i: int| 0 <= i < ids.len() ==> ids[i] < ranks.len(),
    ensures
        out@ == by_rank(ids@, ranks@),
{
    let mut out: Vec<usize> = Vec::new();
    let mut n: usize = 0;
    assert(out@ =~= ids@.take(0));
    while n < ids.len()
        invariant
            n <= ids.len(),
            out.len() == n,
            forall|i: int| 0 <= i < ids.len() ==> ids[i] < ranks.len(),
            forall|i: int| 0 <= i < out.len() ==> out[i] < ranks.len(),
            out@.to_multiset() == ids@.take(n as int).to_multiset(),
            forall|i: int, j: int| 0 <= i < j < out.len() ==> rank_le(ranks@, out[i], out[j]),
        decreases ids.len() - n,
    {
        let id: usize = ids[n];
        let mut at: usize = out.len();
        while at > 0 && (ranks[id] < ranks[out[at - 1]] || (ranks[id] == ranks[out[at - 1]] && id
            < out[at - 1]))
            invariant
                at <= out.len(),
                id < ranks.len(),
                forall|i: int| 0 <= i < out.len() ==> out[i] < ranks.len(),
                forall|i: int, j: int| 0 <= i < j < out.len() ==> rank_le(ranks@, out[i], out[j]),
                forall|i: int| at <= i < out.len() ==> rank_le(ranks@, id, out[i]),
            decreases at,
        {
            at = at - 1;
        }
        let ghost before = out@;
        out.insert(at, id);
        proof {
            assert(at > 0 ==> rank_le(ranks@, before[at - 1], id));
            assert forall|i: int, j: int| 0 <= i < j < out.len() implies rank_le(
                ranks@,
                out[i],
                out[j],
            ) by {
                assert(i < at ==> out[i] == before[i]);
                assert(i > at ==> out[i] == before[i - 1]);
                assert(j < at ==> out[j] == before[j]);
                assert(j > at ==> out[j] == before[j - 1]);
                if j == at {
                    assert(rank_le(ranks@, before[at - 1], id));
                    if i < at - 1 {
                        assert(rank_le(ranks@, before[i], before[at - 1]));
                    }
                }
            }
            vstd::seq_lib::to_multiset_insert(before, at as int, id);
            assert(ids@.take(n + 1) =~= ids@.take(n as int).push(id));
            vstd::seq_lib::to_multiset_build(ids@.take(n as int), id);
        }
        n = n + 1;
    }
    proof {
        assert(ids@.take(n as int) =~= ids@);
        lemma_by_rank_unique(ids@, ranks@, out@);
    }
    out
}

} // verus!
