use crate::everyone;
use crate::lemmas::{
    lemma_best_action_reward, lemma_best_in_dim_max, lemma_best_over_dims_max, lemma_total_none,
    lemma_total_set,
};
use crate::matrix::rectangular;
use crate::model::{
    action_total, best_in_dim, best_over_dims, best_total, leaf_reward, left_part, n_actions,
    n_dims, optimal_reward, right_part, split_reward,
};
use crate::node::Node;
use vstd::prelude::*;

verus! {

/// With no active observation every count of actions has the best total 0.
pub proof fn lemma_nobody_earns_nothing(rew: Seq<Seq<int>>, active: Seq<bool>, k: int)
    requires
        forall|i: int| 0 <= i < active.len() ==> !active[i],
    ensures
        best_total(rew, active, k) == 0,
    decreases k,
{
    lemma_total_none(rew, active, 0, active.len() as int);
    if k > 1 {
        lemma_nobody_earns_nothing(rew, active, k - 1);
        lemma_total_none(rew, active, k - 1, active.len() as int);
    }
}

/// Some observation among the first `n` has the largest value of covariate
/// `p` among them.
pub proof fn lemma_largest_value(cov: Seq<Seq<int>>, p: int, n: int) -> (at: int)
    requires
        1 <= n <= cov.len(),
    ensures
        0 <= at < n,
        forall|i: int| 0 <= i < n ==> cov[i][p] <= cov[at][p],
    decreases n,
{
    if n == 1 {
        0
    } else {
        let before = lemma_largest_value(cov, p, n - 1);
        if cov[n - 1][p] >= cov[before][p] {
            n - 1
        } else {
            before
        }
    }
}

/// A split at any value of any covariate, with the best trees one level
/// lower on both sides, reaches no more than the optimal reward.
pub proof fn lemma_split_is_no_better(
    cov: Seq<Seq<int>>,
    rew: Seq<Seq<int>>,
    active: Seq<bool>,
    depth: nat,
    p: int,
    i: int,
)
    requires
        depth >= 1,
        0 <= p < n_dims(cov),
        0 <= i < cov.len(),
    ensures
        split_reward(cov, rew, active, depth, p, cov[i][p]) <= optimal_reward(
            cov,
            rew,
            active,
            depth,
        ),
{
    lemma_best_in_dim_max(cov, rew, active, depth, p, cov.len() as int);
    lemma_best_over_dims_max(cov, rew, active, depth, n_dims(cov));
    assert(best_in_dim(cov, rew, active, depth, p, cov.len() as int) <= best_over_dims(
        cov,
        rew,
        active,
        depth,
        n_dims(cov),
    ));
}

/// Some split at a value of a covariate, with the best trees one level lower
/// on both sides, reaches the optimal reward.
pub proof fn lemma_some_split_is_optimal(
    cov: Seq<Seq<int>>,
    rew: Seq<Seq<int>>,
    active: Seq<bool>,
    depth: nat,
) -> (at: (int, int))
    requires
        depth >= 1,
        cov.len() >= 1,
        n_dims(cov) >= 1,
    ensures
        0 <= at.0 < n_dims(cov),
        0 <= at.1 < cov.len(),
        split_reward(cov, rew, active, depth, at.0, cov[at.1][at.0]) == optimal_reward(
            cov,
            rew,
            active,
            depth,
        ),
{
    let n = cov.len() as int;
    lemma_best_over_dims_max(cov, rew, active, depth, n_dims(cov));
    let p = choose|p: int|
        0 <= p < n_dims(cov) && #[trigger] best_in_dim(cov, rew, active, depth, p, n)
            == best_over_dims(cov, rew, active, depth, n_dims(cov));
    lemma_best_in_dim_max(cov, rew, active, depth, p, n);
    let i = choose|i: int|
        0 <= i < n && split_reward(cov, rew, active, depth, p, #[trigger] cov[i][p])
            == best_in_dim(cov, rew, active, depth, p, n);
    (p, i)
}

/// The best single split is the largest, over every covariate and every value
/// that it takes in the data, of the best action's total on the left plus the
/// best action's total on the right: none exceeds it and one reaches it.
pub proof fn lemma_single_split_is_exhaustive(
    cov: Seq<Seq<int>>,
    rew: Seq<Seq<int>>,
    active: Seq<bool>,
)
    requires
        cov.len() >= 1,
        n_dims(cov) >= 1,
    ensures
        forall|p: int, i: int|
            0 <= p < n_dims(cov) && 0 <= i < cov.len() ==> leaf_reward(
                rew,
                left_part(cov, active, p, #[trigger] cov[i][p]),
            ) + leaf_reward(rew, right_part(cov, active, p, cov[i][p])) <= optimal_reward(
                cov,
                rew,
                active,
                1,
            ),
        exists|p: int, i: int|
            0 <= p < n_dims(cov) && 0 <= i < cov.len() && leaf_reward(
                rew,
                left_part(cov, active, p, #[trigger] cov[i][p]),
            ) + leaf_reward(rew, right_part(cov, active, p, cov[i][p])) == optimal_reward(
                cov,
                rew,
                active,
                1,
            ),
{
    assert forall|p: int, i: int| 0 <= p < n_dims(cov) && 0 <= i < cov.len() implies leaf_reward(
        rew,
        left_part(cov, active, p, #[trigger] cov[i][p]),
    ) + leaf_reward(rew, right_part(cov, active, p, cov[i][p])) <= optimal_reward(
        cov,
        rew,
        active,
        1,
    ) by {
        lemma_split_is_no_better(cov, rew, active, 1, p, i);
    }
    let at = lemma_some_split_is_optimal(cov, rew, active, 1);
    assert(leaf_reward(rew, left_part(cov, active, at.0, cov[at.1][at.0])) + leaf_reward(
        rew,
        right_part(cov, active, at.0, cov[at.1][at.0]),
    ) == optimal_reward(cov, rew, active, 1));
}

/// One more level of splits never lowers the optimal reward.
pub proof fn lemma_deeper_is_no_worse(
    cov: Seq<Seq<int>>,
    rew: Seq<Seq<int>>,
    active: Seq<bool>,
    depth: nat,
)
    requires
        cov.len() >= 1,
        n_dims(cov) >= 1,
        active.len() == cov.len(),
    ensures
        optimal_reward(cov, rew, active, depth) <= optimal_reward(cov, rew, active, depth + 1),
    decreases depth,
{
    if depth == 0 {
        let at = lemma_largest_value(cov, 0, cov.len() as int);
        let c = cov[at][0];
        let l = left_part(cov, active, 0, c);
        let r = right_part(cov, active, 0, c);
        assert(l =~= active);
        lemma_nobody_earns_nothing(rew, r, n_actions(rew));
        lemma_split_is_no_better(cov, rew, active, 1, 0, at);
    } else {
        let at = lemma_some_split_is_optimal(cov, rew, active, depth);
        let c = cov[at.1][at.0];
        lemma_deeper_is_no_worse(cov, rew, left_part(cov, active, at.0, c), (depth - 1) as nat);
        lemma_deeper_is_no_worse(cov, rew, right_part(cov, active, at.0, c), (depth - 1) as nat);
        lemma_split_is_no_better(cov, rew, active, depth + 1, at.0, at.1);
    }
}

/// In a tree that describes the data, the reward of every branch is the sum
/// of its children's rewards, down to the leaves.
pub proof fn lemma_described_tree_is_additive(
    tree: Node,
    cov: Seq<Seq<int>>,
    rew: Seq<Seq<int>>,
    active: Seq<bool>,
    depth: nat,
)
    requires
        tree.describes(cov, rew, active, depth),
    ensures
        tree.additive(),
    decreases tree,
{
    match (tree.left_child, tree.right_child) {
        (Some(l), Some(r)) => {
            let p = tree.cut_axis.unwrap() as int;
            let c = tree.cut_point.unwrap() as int;
            lemma_described_tree_is_additive(
                *l,
                cov,
                rew,
                left_part(cov, active, p, c),
                (depth - 1) as nat,
            );
            lemma_described_tree_is_additive(
                *r,
                cov,
                rew,
                right_part(cov, active, p, c),
                (depth - 1) as nat,
            );
        },
        _ => {},
    }
}

/// In a tree that describes the data, two active observations with the same
/// value of the covariate that a branch splits on reach the same child of
/// that branch, at every branch of the tree.
pub proof fn lemma_ties_stay_together(
    tree: Node,
    cov: Seq<Seq<int>>,
    rew: Seq<Seq<int>>,
    active: Seq<bool>,
    depth: nat,
    i: int,
    j: int,
)
    requires
        tree.describes(cov, rew, active, depth),
        0 <= i < active.len(),
        0 <= j < active.len(),
    ensures
        tree.keeps_ties(cov, active, i, j),
    decreases tree,
{
    match (tree.left_child, tree.right_child) {
        (Some(l), Some(r)) => {
            let p = tree.cut_axis.unwrap() as int;
            let c = tree.cut_point.unwrap() as int;
            lemma_ties_stay_together(
                *l,
                cov,
                rew,
                left_part(cov, active, p, c),
                (depth - 1) as nat,
                i,
                j,
            );
            lemma_ties_stay_together(
                *r,
                cov,
                rew,
                right_part(cov, active, p, c),
                (depth - 1) as nat,
                i,
                j,
            );
        },
        _ => {},
    }
}

/// A tree that describes the data and is the search's choice at every
/// branch has the optimal reward.
pub proof fn lemma_first_choice_is_optimal(
    tree: Node,
    cov: Seq<Seq<int>>,
    rew: Seq<Seq<int>>,
    active: Seq<bool>,
    depth: nat,
)
    requires
        tree.describes(cov, rew, active, depth),
        tree.first_choice(cov, rew, active, depth),
    ensures
        tree.reward == optimal_reward(cov, rew, active, depth),
{
    if tree.left_child.is_none() || tree.right_child.is_none() {
        lemma_best_action_reward(rew, active, tree.action.unwrap() as int);
    }
}

/// The data determine the tree: two trees that describe the same data and
/// are the search's choice at every branch are the same tree.
pub proof fn lemma_first_choice_is_unique(
    one: Node,
    other: Node,
    cov: Seq<Seq<int>>,
    rew: Seq<Seq<int>>,
    active: Seq<bool>,
    depth: nat,
)
    requires
        one.describes(cov, rew, active, depth),
        one.first_choice(cov, rew, active, depth),
        other.describes(cov, rew, active, depth),
        other.first_choice(cov, rew, active, depth),
    ensures
        one == other,
    decreases one,
{
    match (one.left_child, one.right_child) {
        (Some(left_a), Some(right_a)) => {
            let left_b = other.left_child.unwrap();
            let right_b = other.right_child.unwrap();
            let axis_a = one.cut_axis.unwrap() as int;
            let cut_a = one.cut_point.unwrap() as int;
            let axis_b = other.cut_axis.unwrap() as int;
            let cut_b = other.cut_point.unwrap() as int;
            let d = (depth - 1) as nat;
            let part_la = left_part(cov, active, axis_a, cut_a);
            let part_ra = right_part(cov, active, axis_a, cut_a);
            let part_lb = left_part(cov, active, axis_b, cut_b);
            let part_rb = right_part(cov, active, axis_b, cut_b);
            lemma_first_choice_is_optimal(*left_a, cov, rew, part_la, d);
            lemma_first_choice_is_optimal(*right_a, cov, rew, part_ra, d);
            lemma_first_choice_is_optimal(*left_b, cov, rew, part_lb, d);
            lemma_first_choice_is_optimal(*right_b, cov, rew, part_rb, d);
            assert(one.reward == split_reward(cov, rew, active, depth, axis_a, cut_a));
            assert(other.reward == split_reward(cov, rew, active, depth, axis_b, cut_b));
            let at_a = choose|i: int| 0 <= i < cov.len() && #[trigger] cov[i][axis_a] == cut_a;
            let at_b = choose|i: int| 0 <= i < cov.len() && #[trigger] cov[i][axis_b] == cut_b;
            assert(cov[at_a][axis_a] == cut_a);
            assert(cov[at_b][axis_b] == cut_b);
            assert(axis_a == axis_b);
            assert(cut_a == cut_b);
            lemma_first_choice_is_unique(*left_a, *left_b, cov, rew, part_la, d);
            lemma_first_choice_is_unique(*right_a, *right_b, cov, rew, part_ra, d);
            assert(left_a == left_b);
            assert(right_a == right_b);
        },
        _ => {
            assert(other.left_child.is_none() || other.right_child.is_none());
        },
    }
}

/// `j` is one of the first `n` numbers of `perm`.
pub open spec fn lists(perm: Seq<int>, n: int, j: int) -> bool {
    exists|i: int| 0 <= i < n && #[trigger] perm[i] == j
}

/// `perm` lists the numbers below its length, each once.
pub open spec fn is_permutation(perm: Seq<int>) -> bool {
    &&& forall|i: int| 0 <= i < perm.len() ==> 0 <= #[trigger] perm[i] < perm.len()
    &&& forall|i: int, j: int| 0 <= i < j < perm.len() ==> perm[i] != perm[j]
    &&& forall|j: int| 0 <= j < perm.len() ==> #[trigger] lists(perm, perm.len() as int, j)
}

/// The rows of `s` in the order that `perm` gives.
pub open spec fn reordered<T>(s: Seq<T>, perm: Seq<int>) -> Seq<T> {
    Seq::new(perm.len(), |i: int| s[perm[i]])
}

/// The active observations that `perm` lists among its first `n`.
pub open spec fn listed(active: Seq<bool>, perm: Seq<int>, n: int) -> Seq<bool> {
    Seq::new(active.len(), |j: int| active[j] && lists(perm, n, j))
}

/// The total of an action over reordered rows does not depend on the order.
pub proof fn lemma_total_of_reordered(
    rew: Seq<Seq<int>>,
    active: Seq<bool>,
    perm: Seq<int>,
    a: int,
    n: int,
)
    requires
        is_permutation(perm),
        perm.len() == active.len(),
        0 <= n <= perm.len(),
    ensures
        action_total(reordered(rew, perm), reordered(active, perm), a, n) == action_total(
            rew,
            listed(active, perm, n),
            a,
            active.len() as int,
        ),
    decreases n,
{
    let len = active.len() as int;
    if n == 0 {
        lemma_total_none(rew, listed(active, perm, 0), a, len);
    } else {
        lemma_total_of_reordered(rew, active, perm, a, n - 1);
        let before = listed(active, perm, n - 1);
        let after = listed(active, perm, n);
        let m = perm[n - 1];
        assert(!before[m]) by {
            if before[m] {
                assert(lists(perm, n - 1, m));
                let i = choose|i: int| 0 <= i < n - 1 && #[trigger] perm[i] == m;
                assert(perm[i] != perm[n - 1]);
            }
        }
        assert(after =~= before.update(m, active[m])) by {
            let set = before.update(m, active[m]);
            assert forall|j: int| 0 <= j < len implies after[j] == set[j] by {
                if j == m {
                    assert(perm[n - 1] == j);
                } else {
                    if lists(perm, n, j) {
                        let i = choose|i: int| 0 <= i < n && #[trigger] perm[i] == j;
                        assert(0 <= i < n - 1 && perm[i] == j);
                    }
                    if lists(perm, n - 1, j) {
                        let i = choose|i: int| 0 <= i < n - 1 && #[trigger] perm[i] == j;
                        assert(0 <= i < n && perm[i] == j);
                    }
                }
            }
        }
        lemma_total_set(rew, before, m, active[m], a, len);
    }
}

/// The best total over reordered rows does not depend on the order.
pub proof fn lemma_best_total_of_reordered(
    rew: Seq<Seq<int>>,
    active: Seq<bool>,
    perm: Seq<int>,
    k: int,
)
    requires
        is_permutation(perm),
        perm.len() == active.len(),
    ensures
        best_total(reordered(rew, perm), reordered(active, perm), k) == best_total(rew, active, k),
    decreases k,
{
    let len = active.len() as int;
    let a = if k <= 1 {
        0
    } else {
        k - 1
    };
    lemma_total_of_reordered(rew, active, perm, a, len);
    assert(listed(active, perm, len) =~= active) by {
        assert forall|j: int| 0 <= j < len implies listed(active, perm, len)[j] == active[j] by {
            assert(lists(perm, perm.len() as int, j));
        }
    }
    if k > 1 {
        lemma_best_total_of_reordered(rew, active, perm, k - 1);
    }
}

/// The optimal reward does not depend on the order of the rows: reordering
/// the observations of both tables in the same way leaves it unchanged.
pub proof fn lemma_row_order_is_irrelevant(
    cov: Seq<Seq<int>>,
    rew: Seq<Seq<int>>,
    active: Seq<bool>,
    perm: Seq<int>,
    depth: nat,
)
    requires
        is_permutation(perm),
        cov.len() >= 1,
        perm.len() == cov.len(),
        rew.len() == cov.len(),
        active.len() == cov.len(),
        rectangular(cov, n_dims(cov)),
        rectangular(rew, n_actions(rew)),
        n_dims(cov) >= 1,
    ensures
        optimal_reward(reordered(cov, perm), reordered(rew, perm), reordered(active, perm), depth)
            == optimal_reward(cov, rew, active, depth),
    decreases depth,
{
    let cov2 = reordered(cov, perm);
    let rew2 = reordered(rew, perm);
    let active2 = reordered(active, perm);
    assert(n_dims(cov2) == n_dims(cov)) by {
        assert(cov2[0] == cov[perm[0]]);
    }
    assert(n_actions(rew2) == n_actions(rew)) by {
        assert(rew2[0] == rew[perm[0]]);
    }
    if depth == 0 {
        lemma_best_total_of_reordered(rew, active, perm, n_actions(rew));
    } else {
        let d = (depth - 1) as nat;
        // Every split of the reordered data is a split of the data, with the same reward.
        assert forall|p: int, i: int|
            0 <= p < n_dims(cov) && 0 <= i < cov.len() implies split_reward(
            cov2,
            rew2,
            active2,
            depth,
            p,
            #[trigger] cov[i][p],
        ) == split_reward(cov, rew, active, depth, p, cov[i][p]) by {
            let c = cov[i][p];
            let l = left_part(cov, active, p, c);
            let r = right_part(cov, active, p, c);
            assert(left_part(cov2, active2, p, c) =~= reordered(l, perm));
            assert(right_part(cov2, active2, p, c) =~= reordered(r, perm));
            lemma_row_order_is_irrelevant(cov, rew, l, perm, d);
            lemma_row_order_is_irrelevant(cov, rew, r, perm, d);
        }
        let at = lemma_some_split_is_optimal(cov, rew, active, depth);
        let at2 = lemma_some_split_is_optimal(cov2, rew2, active2, depth);
        // The best split of the data is one of the reordered data.
        assert(lists(perm, perm.len() as int, at.1));
        let j = choose|j: int| 0 <= j < perm.len() && #[trigger] perm[j] == at.1;
        assert(cov2[j][at.0] == cov[at.1][at.0]);
        lemma_split_is_no_better(cov2, rew2, active2, depth, at.0, j);
        // The best split of the reordered data is one of the data.
        assert(cov2[at2.1][at2.0] == cov[perm[at2.1]][at2.0]);
        lemma_split_is_no_better(cov, rew, active, depth, at2.0, perm[at2.1]);
    }
}

/// The optimal reward over all observations does not depend on the order of
/// the rows of the two tables.
pub proof fn lemma_row_order_is_irrelevant_for_all(
    cov: Seq<Seq<int>>,
    rew: Seq<Seq<int>>,
    perm: Seq<int>,
    depth: nat,
)
    requires
        is_permutation(perm),
        cov.len() >= 1,
        perm.len() == cov.len(),
        rew.len() == cov.len(),
        rectangular(cov, n_dims(cov)),
        rectangular(rew, n_actions(rew)),
        n_dims(cov) >= 1,
    ensures
        optimal_reward(reordered(cov, perm), reordered(rew, perm), everyone(cov.len()), depth)
            == optimal_reward(cov, rew, everyone(cov.len()), depth),
{
    let all = everyone(cov.len());
    assert(reordered(all, perm) =~= all);
    lemma_row_order_is_irrelevant(cov, rew, all, perm, depth);
}

} // verus!
