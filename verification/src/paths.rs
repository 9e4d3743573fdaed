use vstd::prelude::*;
use crate::shape::present;
use crate::node::{TreeIndex, TreeNode};
use crate::iter::{successors, walk_step, walk_step_defined};
use crate::evolve::walk_ends;

verus! {

/// Whether edge `k` of the node at position `i` is an index (not `None`)
/// and, when it leads to a present node, that node is marked by `inside`
/// and ranked strictly below `i`.
pub open spec fn edge_ranked<T>(
    arena: Seq<Option<TreeNode<T>>>, inside: spec_fn(int) -> bool, rank: spec_fn(int) -> nat, i: int, k: int,
) -> bool {
    let c = successors(arena, i)[k];
    &&& c is Some
    &&& present(arena, c.unwrap() as int) ==> inside(c.unwrap() as int) && rank(c.unwrap() as int) < rank(i)
}

/// Whether `rank` shows the part of `arena` marked by `inside` to be free of
/// cycles: every edge of a marked present node is an index, and leads, if
/// anywhere, to a marked node of lower rank. (A finite graph has no cycle
/// exactly when such a rank exists.)
pub open spec fn ranked<T>(arena: Seq<Option<TreeNode<T>>>, inside: spec_fn(int) -> bool, rank: spec_fn(int) -> nat) -> bool {
    forall|i: int, k: int| inside(i) && present(arena, i) && 0 <= k < successors(arena, i).len()
        ==> #[trigger] edge_ranked(arena, inside, rank, i, k)
}

/// Whether every entry of `stack` is an index, and a present one is marked by `inside`.
pub open spec fn stack_inside<T>(arena: Seq<Option<TreeNode<T>>>, inside: spec_fn(int) -> bool, stack: Seq<Option<TreeIndex>>) -> bool {
    forall|j: int| 0 <= j < stack.len() ==> #[trigger] stack[j] is Some
        && (present(arena, stack[j].unwrap() as int) ==> inside(stack[j].unwrap() as int))
}

/// The number of paths from position `p`, through present nodes, to a node
/// satisfying `pred` (the path of length zero included).
pub open spec fn count_from<T>(
    arena: Seq<Option<TreeNode<T>>>, rank: spec_fn(int) -> nat, pred: spec_fn(int) -> bool, p: int,
) -> nat
    decreases rank(p), 1int, 0int,
{
    if present(arena, p) {
        (if pred(p) { 1nat } else { 0nat }) + count_children(arena, rank, pred, p, successors(arena, p).len() as int)
    } else {
        0
    }
}

/// `count_from` summed over the first `j` successors of `p` that rank below it.
pub open spec fn count_children<T>(
    arena: Seq<Option<TreeNode<T>>>, rank: spec_fn(int) -> nat, pred: spec_fn(int) -> bool, p: int, j: int,
) -> nat
    decreases rank(p), 0int, j,
{
    if j <= 0 {
        0
    } else {
        let c = successors(arena, p)[j - 1];
        count_children(arena, rank, pred, p, j - 1) + if c is Some && rank(c.unwrap() as int) < rank(p) {
            count_from(arena, rank, pred, c.unwrap() as int)
        } else {
            0
        }
    }
}

/// `count_from` summed over the entries of `stack`.
pub open spec fn count_stack<T>(
    arena: Seq<Option<TreeNode<T>>>, rank: spec_fn(int) -> nat, pred: spec_fn(int) -> bool, stack: Seq<Option<TreeIndex>>,
) -> nat
    decreases stack.len(),
{
    if stack.len() == 0 {
        0
    } else {
        count_stack(arena, rank, pred, stack.drop_last()) + if stack.last() is Some {
            count_from(arena, rank, pred, stack.last().unwrap() as int)
        } else {
            0
        }
    }
}

/// Holds of position `k` only.
pub open spec fn is_node(k: int) -> spec_fn(int) -> bool {
    |x: int| x == k
}

/// Holds of every position.
pub open spec fn any_node() -> spec_fn(int) -> bool {
    |x: int| true
}

/// The number of paths from the entries of `stack` to position `k`.
pub open spec fn paths_to<T>(arena: Seq<Option<TreeNode<T>>>, rank: spec_fn(int) -> nat, stack: Seq<Option<TreeIndex>>, k: int) -> nat {
    count_stack(arena, rank, is_node(k), stack)
}

/// The number of paths from the entries of `stack` to any node.
pub open spec fn paths_total<T>(arena: Seq<Option<TreeNode<T>>>, rank: spec_fn(int) -> nat, stack: Seq<Option<TreeIndex>>) -> nat {
    count_stack(arena, rank, any_node(), stack)
}

/// The nodes that `PreorderIter::next` returns, in order, over at most `n`
/// calls of the walk from `stack`.
pub open spec fn walk_visits<T>(arena: Seq<Option<TreeNode<T>>>, stack: Seq<Option<TreeIndex>>, n: nat) -> Seq<TreeIndex>
    decreases n,
{
    match walk_step(arena, stack).0 {
        None => Seq::empty(),
        Some(c) => if n == 0 {
            Seq::empty()
        } else {
            seq![c] + walk_visits(arena, walk_step(arena, stack).1, (n - 1) as nat)
        },
    }
}

/// How many times `k` occurs in `s`.
pub open spec fn occurrences(s: Seq<TreeIndex>, k: int) -> nat
    decreases s.len(),
{
    if s.len() == 0 {
        0
    } else {
        (if s[0] as int == k { 1nat } else { 0nat }) + occurrences(s.drop_first(), k)
    }
}

proof fn lemma_count_stack_concat<T>(
    arena: Seq<Option<TreeNode<T>>>, rank: spec_fn(int) -> nat, pred: spec_fn(int) -> bool,
    s: Seq<Option<TreeIndex>>, t: Seq<Option<TreeIndex>>,
)
    ensures
        count_stack(arena, rank, pred, s + t) == count_stack(arena, rank, pred, s) + count_stack(arena, rank, pred, t),
    decreases t.len(),
{
    if t.len() == 0 {
        assert(s + t =~= s);
    } else {
        lemma_count_stack_concat(arena, rank, pred, s, t.drop_last());
        assert((s + t).drop_last() =~= s + t.drop_last());
        assert((s + t).last() == t.last());
    }
}

proof fn lemma_count_children<T>(
    arena: Seq<Option<TreeNode<T>>>, inside: spec_fn(int) -> bool, rank: spec_fn(int) -> nat, pred: spec_fn(int) -> bool,
    p: int, j: int,
)
    requires
        ranked(arena, inside, rank),
        inside(p),
        present(arena, p),
        0 <= j <= successors(arena, p).len(),
    ensures
        count_stack(arena, rank, pred, successors(arena, p).take(j)) == count_children(arena, rank, pred, p, j),
    decreases j,
{
    let succ = successors(arena, p);
    if j == 0 {
        assert(succ.take(0) =~= Seq::<Option<TreeIndex>>::empty());
    } else {
        lemma_count_children(arena, inside, rank, pred, p, j - 1);
        assert(succ.take(j).drop_last() =~= succ.take(j - 1));
        assert(succ.take(j).last() == succ[j - 1]);
        assert(edge_ranked(arena, inside, rank, p, j - 1));
    }
}

proof fn lemma_count_step<T>(
    arena: Seq<Option<TreeNode<T>>>, inside: spec_fn(int) -> bool, rank: spec_fn(int) -> nat, pred: spec_fn(int) -> bool,
    s: Seq<Option<TreeIndex>>,
)
    requires
        ranked(arena, inside, rank),
        stack_inside(arena, inside, s),
    ensures
        walk_step_defined(arena, s),
        match walk_step(arena, s).0 {
            None => count_stack(arena, rank, pred, s) == 0,
            Some(c) => {
                &&& count_stack(arena, rank, pred, s)
                    == (if pred(c as int) { 1nat } else { 0nat }) + count_stack(arena, rank, pred, walk_step(arena, s).1)
                &&& stack_inside(arena, inside, walk_step(arena, s).1)
            },
        },
    decreases s.len(),
{
    if s.len() > 0 {
        let top = s.last();
        let rest = s.drop_last();
        assert(s[s.len() - 1] is Some);
        assert(stack_inside(arena, inside, rest)) by {
            assert forall|j: int| 0 <= j < rest.len() implies #[trigger] rest[j] is Some
                && (present(arena, rest[j].unwrap() as int) ==> inside(rest[j].unwrap() as int)) by {
                assert(rest[j] == s[j]);
            }
        }
        let p = top.unwrap() as int;
        if present(arena, p) {
            let succ = successors(arena, p);
            lemma_count_children(arena, inside, rank, pred, p, succ.len() as int);
            assert(succ.take(succ.len() as int) =~= succ);
            lemma_count_stack_concat(arena, rank, pred, rest, succ);
            let next = rest + succ;
            assert forall|j: int| 0 <= j < next.len() implies #[trigger] next[j] is Some
                && (present(arena, next[j].unwrap() as int) ==> inside(next[j].unwrap() as int)) by {
                if j < rest.len() {
                    assert(next[j] == rest[j]);
                } else {
                    assert(next[j] == succ[j - rest.len()]);
                    assert(edge_ranked(arena, inside, rank, p, j - rest.len()));
                }
            }
        } else {
            lemma_count_step(arena, inside, rank, pred, rest);
        }
    }
}

proof fn lemma_walk_counts<T>(
    arena: Seq<Option<TreeNode<T>>>, inside: spec_fn(int) -> bool, rank: spec_fn(int) -> nat, s: Seq<Option<TreeIndex>>, k: int,
)
    requires
        ranked(arena, inside, rank),
        stack_inside(arena, inside, s),
    ensures
        walk_ends(arena, s, paths_total(arena, rank, s)),
        occurrences(walk_visits(arena, s, paths_total(arena, rank, s)), k) == paths_to(arena, rank, s, k),
    decreases paths_total(arena, rank, s),
{
    let all = any_node();
    let eqk = is_node(k);
    lemma_count_step(arena, inside, rank, all, s);
    lemma_count_step(arena, inside, rank, eqk, s);
    let n = paths_total(arena, rank, s);
    match walk_step(arena, s).0 {
        None => {},
        Some(c) => {
            let s2 = walk_step(arena, s).1;
            lemma_walk_counts(arena, inside, rank, s2, k);
            let rest = walk_visits(arena, s2, (n - 1) as nat);
            assert((seq![c] + rest).drop_first() =~= rest);
            assert((seq![c] + rest)[0] == c);
        },
    }
}

/// On a part of the arena without cycles, reached from `stack`, the
/// depth-first walk of `PreorderIter::next` ends after finitely many calls
/// (one per path from an entry of `stack`), and returns each node `k` once
/// for every path from an entry of `stack` to `k`.
pub proof fn law_acyclic_walk<T>(
    arena: Seq<Option<TreeNode<T>>>, inside: spec_fn(int) -> bool, rank: spec_fn(int) -> nat, stack: Seq<Option<TreeIndex>>,
)
    requires
        ranked(arena, inside, rank),
        stack_inside(arena, inside, stack),
    ensures
        walk_ends(arena, stack, paths_total(arena, rank, stack)),
        walk_visits(arena, stack, paths_total(arena, rank, stack)).len() == paths_total(arena, rank, stack),
        forall|k: int| #[trigger] occurrences(walk_visits(arena, stack, paths_total(arena, rank, stack)), k)
            == paths_to(arena, rank, stack, k),
{
    assert forall|k: int| #[trigger] occurrences(walk_visits(arena, stack, paths_total(arena, rank, stack)), k)
        == paths_to(arena, rank, stack, k) by {
        lemma_walk_counts(arena, inside, rank, stack, k);
    }
    lemma_walk_counts(arena, inside, rank, stack, 0);
    lemma_visits_len(arena, inside, rank, stack);
}

proof fn lemma_visits_len<T>(
    arena: Seq<Option<TreeNode<T>>>, inside: spec_fn(int) -> bool, rank: spec_fn(int) -> nat, s: Seq<Option<TreeIndex>>,
)
    requires
        ranked(arena, inside, rank),
        stack_inside(arena, inside, s),
    ensures
        walk_visits(arena, s, paths_total(arena, rank, s)).len() == paths_total(arena, rank, s),
    decreases paths_total(arena, rank, s),
{
    lemma_count_step(arena, inside, rank, any_node(), s);
    match walk_step(arena, s).0 {
        None => {},
        Some(c) => {
            lemma_visits_len(arena, inside, rank, walk_step(arena, s).1);
        },
    }
}

} // verus!
