use vstd::prelude::*;

verus! {

/// A generation whose best score exceeds this ends the training.
pub const GENERATION_GOAL: usize = 10000;

/// An episode whose score exceeds this ends the training at once.
pub const EPISODE_GOAL: usize = 100000;

/// `sorted` with `x` put in after the last element whose score is not
/// greater than `x`'s: the place that a scan from the end, stepping over
/// strictly greater scores, reaches.
pub open spec fn insert_by_score<P>(sorted: Seq<(P, usize)>, x: (P, usize)) -> Seq<(P, usize)>
    decreases sorted.len(),
{
    if sorted.len() == 0 || sorted.last().1 <= x.1 {
        sorted.push(x)
    } else {
        insert_by_score(sorted.drop_last(), x).push(sorted.last())
    }
}

/// `s` sorted by score, ascending, by inserting each element in turn; of
/// elements with equal scores, the earlier stays first.
pub open spec fn sorted_by_score<P>(s: Seq<(P, usize)>) -> Seq<(P, usize)>
    decreases s.len(),
{
    if s.len() == 0 {
        s
    } else {
        insert_by_score(sorted_by_score(s.drop_last()), s.last())
    }
}

/// Whether the scores of `s` never decrease.
pub open spec fn scores_ascending<P>(s: Seq<(P, usize)>) -> bool {
    forall|i: int, j: int| 0 <= i <= j < s.len() ==> #[trigger] s[i].1 <= #[trigger] s[j].1
}

proof fn lemma_insert_position<P>(sorted: Seq<(P, usize)>, x: (P, usize), j: int)
    requires
        0 <= j <= sorted.len(),
        j == 0 || sorted[j - 1].1 <= x.1,
        forall|k: int| j <= k < sorted.len() ==> #[trigger] sorted[k].1 > x.1,
    ensures
        insert_by_score(sorted, x) == sorted.take(j).push(x) + sorted.skip(j),
    decreases sorted.len(),
{
    if sorted.len() == j {
        assert(sorted.take(j) =~= sorted);
        assert(sorted.skip(j) =~= Seq::<(P, usize)>::empty());
        assert(sorted.take(j).push(x) + sorted.skip(j) =~= sorted.push(x));
    } else {
        let d = sorted.drop_last();
        assert(sorted.last().1 > x.1);
        assert forall|k: int| j <= k < d.len() implies #[trigger] d[k].1 > x.1 by {
            assert(d[k] == sorted[k]);
        }
        lemma_insert_position(d, x, j);
        assert(d.take(j) =~= sorted.take(j));
        assert(d.skip(j).push(sorted.last()) =~= sorted.skip(j));
        assert((d.take(j).push(x) + d.skip(j)).push(sorted.last()) =~= sorted.take(j).push(x) + sorted.skip(j));
    }
}

/// Sorts `pool` by score (the second component), ascending, keeping the
/// order of equal scores: each element in turn is taken out and put back
/// after the last of the elements before it whose score is not greater.
pub fn sort_by_score<P>(pool: &mut Vec<(P, usize)>)
    ensures
        final(pool)@ == sorted_by_score(old(pool)@),
{
    let ghost orig = pool@;
    let n = pool.len();
    if n == 0 {
        return;
    }
    let mut i: usize = 1;
    proof {
        assert(orig.take(1).drop_last() =~= orig.take(0));
        assert(orig.take(0) =~= Seq::<(P, usize)>::empty());
        assert(sorted_by_score(orig.take(0)) =~= Seq::<(P, usize)>::empty());
        assert(insert_by_score(Seq::<(P, usize)>::empty(), orig[0]) =~= seq![orig[0]]);
        assert(orig.take(1) =~= seq![orig[0]]);
        assert(sorted_by_score(orig.take(1)) =~= orig.take(1));
        assert(pool@ =~= orig.take(1) + orig.skip(1));
    }
    while i < n
        invariant
            1 <= i <= n,
            n == orig.len(),
            pool@.len() == n,
            pool@ == sorted_by_score(orig.take(i as int)) + orig.skip(i as int),
        decreases n - i,
    {
        let ghost s = sorted_by_score(orig.take(i as int));
        proof {
            lemma_sorted_len(orig.take(i as int));
            assert(pool@[i as int] == orig[i as int]);
        }
        let x = pool.remove(i);
        proof {
            assert(pool@ =~= s + orig.skip(i + 1));
        }
        let mut j: usize = i;
        while j > 0 && pool[j - 1].1 > x.1
            invariant
                j <= i,
                s.len() == i,
                pool@ == s + orig.skip(i + 1),
                forall|k: int| j <= k < i ==> #[trigger] s[k].1 > x.1,
            decreases j,
        {
            j = j - 1;
        }
        proof {
            lemma_insert_position(s, x, j as int);
            assert(orig.take(i + 1).drop_last() =~= orig.take(i as int));
            assert(orig.take(i + 1).last() == x);
        }
        pool.insert(j, x);
        proof {
            assert(pool@ =~= s.take(j as int).push(x) + s.skip(j as int) + orig.skip(i + 1));
        }
        i = i + 1;
    }
    proof {
        assert(orig.take(n as int) =~= orig);
        assert(orig.skip(n as int) =~= Seq::<(P, usize)>::empty());
        assert(pool@ =~= sorted_by_score(orig));
    }
}

pub proof fn lemma_sorted_len<P>(s: Seq<(P, usize)>)
    ensures
        sorted_by_score(s).len() == s.len(),
    decreases s.len(),
{
    if s.len() > 0 {
        lemma_sorted_len(s.drop_last());
        lemma_insert_len(sorted_by_score(s.drop_last()), s.last());
    }
}

proof fn lemma_insert_len<P>(s: Seq<(P, usize)>, x: (P, usize))
    ensures
        insert_by_score(s, x).len() == s.len() + 1,
    decreases s.len(),
{
    if s.len() > 0 && s.last().1 > x.1 {
        lemma_insert_len(s.drop_last(), x);
    }
}


proof fn lemma_insert_bound<P>(s: Seq<(P, usize)>, x: (P, usize), b: int)
    requires
        forall|k: int| 0 <= k < s.len() ==> #[trigger] s[k].1 <= b,
        x.1 <= b,
    ensures
        forall|k: int| 0 <= k < insert_by_score(s, x).len() ==> #[trigger] insert_by_score(s, x)[k].1 <= b,
    decreases s.len(),
{
    lemma_insert_len(s, x);
    if s.len() > 0 && s.last().1 > x.1 {
        let d = s.drop_last();
        assert forall|k: int| 0 <= k < d.len() implies #[trigger] d[k].1 <= b by {
            assert(d[k] == s[k]);
        }
        lemma_insert_bound(d, x, b);
        lemma_insert_len(d, x);
        let r = insert_by_score(d, x);
        assert forall|k: int| 0 <= k < r.push(s.last()).len() implies #[trigger] r.push(s.last())[k].1 <= b by {
            if k < r.len() {
                assert(r.push(s.last())[k] == r[k]);
            }
        }
    }
}

proof fn lemma_insert_ascending<P>(s: Seq<(P, usize)>, x: (P, usize))
    requires
        scores_ascending(s),
    ensures
        scores_ascending(insert_by_score(s, x)),
    decreases s.len(),
{
    lemma_insert_len(s, x);
    if s.len() == 0 || s.last().1 <= x.1 {
        let r = s.push(x);
        assert forall|i: int, j: int| 0 <= i <= j < r.len() implies #[trigger] r[i].1 <= #[trigger] r[j].1 by {
            if j == s.len() as int && i < j {
                assert(s[i].1 <= s[s.len() - 1].1);
            }
        }
    } else {
        let d = s.drop_last();
        let last = s.last();
        assert forall|i: int, j: int| 0 <= i <= j < d.len() implies #[trigger] d[i].1 <= #[trigger] d[j].1 by {
            assert(d[i] == s[i] && d[j] == s[j]);
        }
        lemma_insert_ascending(d, x);
        assert forall|k: int| 0 <= k < d.len() implies #[trigger] d[k].1 <= last.1 by {
            assert(d[k] == s[k]);
        }
        lemma_insert_bound(d, x, last.1 as int);
        lemma_insert_len(d, x);
        let q = insert_by_score(d, x);
        let r = q.push(last);
        assert forall|i: int, j: int| 0 <= i <= j < r.len() implies #[trigger] r[i].1 <= #[trigger] r[j].1 by {
            if j < q.len() {
                assert(r[i] == q[i] && r[j] == q[j]);
            } else if i < q.len() {
                assert(r[i] == q[i]);
            }
        }
    }
}

proof fn lemma_insert_multiset<P>(s: Seq<(P, usize)>, x: (P, usize))
    ensures
        insert_by_score(s, x).to_multiset() == s.to_multiset().insert(x),
    decreases s.len(),
{
    broadcast use vstd::seq_lib::group_to_multiset_ensures;
    if s.len() > 0 && s.last().1 > x.1 {
        let d = s.drop_last();
        lemma_insert_multiset(d, x);
        assert(d.push(s.last()) =~= s);
        assert(insert_by_score(s, x).to_multiset() =~= s.to_multiset().insert(x));
    }
}

/// Sorting by score leaves the scores ascending, so that the last element
/// of the sorted pool has the highest score.
pub proof fn law_sorted_scores_ascend<P>(s: Seq<(P, usize)>)
    ensures
        scores_ascending(sorted_by_score(s)),
    decreases s.len(),
{
    if s.len() > 0 {
        law_sorted_scores_ascend(s.drop_last());
        lemma_insert_ascending(sorted_by_score(s.drop_last()), s.last());
    }
}

/// Sorting by score keeps every element, as many times as it occurs, and adds none.
pub proof fn law_sorted_is_permutation<P>(s: Seq<(P, usize)>)
    ensures
        sorted_by_score(s).to_multiset() == s.to_multiset(),
    decreases s.len(),
{
    broadcast use vstd::seq_lib::group_to_multiset_ensures;
    if s.len() > 0 {
        law_sorted_is_permutation(s.drop_last());
        lemma_insert_multiset(sorted_by_score(s.drop_last()), s.last());
        assert(s.drop_last().push(s.last()) =~= s);
    }
}


/// Ends a generation of training: ranks the pool by score (best last) and
/// says whether the best score is high enough to stop training.
pub fn end_generation<P>(pool: &mut Vec<(P, usize)>) -> (stop: bool)
    requires
        old(pool)@.len() > 0,
    ensures
        final(pool)@ == sorted_by_score(old(pool)@),
        stop == (final(pool)@.last().1 > GENERATION_GOAL),
{
    sort_by_score(pool);
    proof {
        lemma_sorted_len(old(pool)@);
    }
    let last = pool.len() - 1;
    pool[last].1 > GENERATION_GOAL
}

/// Whether a network that has kept the pole up for `score` steps of one
/// episode is good enough to end the training at once.
pub fn episode_succeeded(score: usize) -> (found: bool)
    ensures
        found == (score > EPISODE_GOAL),
{
    score > EPISODE_GOAL
}

} // verus!
