use crate::laws::{
    lemma_deeper_is_no_worse, lemma_nobody_earns_nothing, lemma_some_split_is_optimal,
    lemma_split_is_no_better,
};
use crate::lemmas::lemma_best_total_max;
use crate::model::{
    action_total, left_part, n_actions, n_dims, optimal_reward, right_part, split_reward,
};
use crate::node::Node;
use vstd::prelude::*;

verus! {

/// The action that `tree` assigns to an observation with the covariates
/// `row`: at a branch the observation goes left where its covariate is at
/// most the cut, else right, until it reaches a leaf.
pub open spec fn assigned_action(tree: Node, row: Seq<int>) -> int
    decreases tree,
{
    match (tree.left_child, tree.right_child) {
        (Some(l), Some(r)) => if row[tree.cut_axis.unwrap() as int] <= tree.cut_point.unwrap() {
            assigned_action(*l, row)
        } else {
            assigned_action(*r, row)
        },
        _ => tree.action.unwrap() as int,
    }
}

/// Total reward of the actions that `tree` assigns to the active
/// observations among the first `n`.
pub open spec fn policy_total(
    tree: Node,
    cov: Seq<Seq<int>>,
    rew: Seq<Seq<int>>,
    active: Seq<bool>,
    n: int,
) -> int
    decreases n,
{
    if n <= 0 {
        0
    } else {
        policy_total(tree, cov, rew, active, n - 1) + if active[n - 1] {
            rew[n - 1][assigned_action(tree, cov[n - 1])]
        } else {
            0
        }
    }
}

/// `tree` is a complete tree of `depth` levels of splits on `np` covariates
/// with leaves among `k` actions. Its cuts and actions are arbitrary.
pub open spec fn is_policy_tree(tree: Node, depth: nat, np: int, k: int) -> bool
    decreases tree,
{
    match (tree.left_child, tree.right_child) {
        (Some(l), Some(r)) => {
            &&& depth > 0
            &&& tree.cut_axis.is_some()
            &&& tree.cut_point.is_some()
            &&& 0 <= tree.cut_axis.unwrap() < np
            &&& is_policy_tree(*l, (depth - 1) as nat, np, k)
            &&& is_policy_tree(*r, (depth - 1) as nat, np, k)
        },
        _ => depth == 0 && tree.action.is_some() && 0 <= tree.action.unwrap() < k,
    }
}

/// A leaf earns the total of its action.
pub proof fn lemma_policy_total_of_leaf(
    tree: Node,
    cov: Seq<Seq<int>>,
    rew: Seq<Seq<int>>,
    active: Seq<bool>,
    n: int,
)
    requires
        tree.left_child.is_none() || tree.right_child.is_none(),
    ensures
        policy_total(tree, cov, rew, active, n) == action_total(
            rew,
            active,
            tree.action.unwrap() as int,
            n,
        ),
    decreases n,
{
    if n > 0 {
        lemma_policy_total_of_leaf(tree, cov, rew, active, n - 1);
    }
}

/// A branch earns what its children earn on the two parts of its
/// observations.
pub proof fn lemma_policy_total_of_branch(
    tree: Node,
    cov: Seq<Seq<int>>,
    rew: Seq<Seq<int>>,
    active: Seq<bool>,
    n: int,
)
    requires
        tree.left_child.is_some(),
        tree.right_child.is_some(),
        0 <= n <= active.len(),
    ensures
        policy_total(tree, cov, rew, active, n) == policy_total(
            *tree.left_child.unwrap(),
            cov,
            rew,
            left_part(cov, active, tree.cut_axis.unwrap() as int, tree.cut_point.unwrap() as int),
            n,
        ) + policy_total(
            *tree.right_child.unwrap(),
            cov,
            rew,
            right_part(cov, active, tree.cut_axis.unwrap() as int, tree.cut_point.unwrap() as int),
            n,
        ),
    decreases n,
{
    if n > 0 {
        lemma_policy_total_of_branch(tree, cov, rew, active, n - 1);
    }
}

/// The reward of a tree that describes the data is the total reward of the
/// actions that it assigns to the active observations, each routed by its own
/// covariates. Observations with the same covariates get the same action.
pub proof fn lemma_reward_is_policy_total(
    tree: Node,
    cov: Seq<Seq<int>>,
    rew: Seq<Seq<int>>,
    active: Seq<bool>,
    depth: nat,
)
    requires
        tree.describes(cov, rew, active, depth),
    ensures
        tree.reward == policy_total(tree, cov, rew, active, active.len() as int),
    decreases tree,
{
    let n = active.len() as int;
    match (tree.left_child, tree.right_child) {
        (Some(l), Some(r)) => {
            let p = tree.cut_axis.unwrap() as int;
            let c = tree.cut_point.unwrap() as int;
            lemma_policy_total_of_branch(tree, cov, rew, active, n);
            lemma_reward_is_policy_total(
                *l,
                cov,
                rew,
                left_part(cov, active, p, c),
                (depth - 1) as nat,
            );
            lemma_reward_is_policy_total(
                *r,
                cov,
                rew,
                right_part(cov, active, p, c),
                (depth - 1) as nat,
            );
        },
        _ => {
            lemma_policy_total_of_leaf(tree, cov, rew, active, n);
        },
    }
}

/// A tree that describes the data is a complete tree on its covariates and
/// actions.
pub proof fn lemma_described_tree_is_policy_tree(
    tree: Node,
    cov: Seq<Seq<int>>,
    rew: Seq<Seq<int>>,
    active: Seq<bool>,
    depth: nat,
)
    requires
        tree.describes(cov, rew, active, depth),
    ensures
        is_policy_tree(tree, depth, n_dims(cov), n_actions(rew)),
    decreases tree,
{
    match (tree.left_child, tree.right_child) {
        (Some(l), Some(r)) => {
            let p = tree.cut_axis.unwrap() as int;
            let c = tree.cut_point.unwrap() as int;
            lemma_described_tree_is_policy_tree(
                *l,
                cov,
                rew,
                left_part(cov, active, p, c),
                (depth - 1) as nat,
            );
            lemma_described_tree_is_policy_tree(
                *r,
                cov,
                rew,
                right_part(cov, active, p, c),
                (depth - 1) as nat,
            );
        },
        _ => {},
    }
}

/// With no active observation the optimal reward is 0 at every depth.
pub proof fn lemma_nobody_is_worth_nothing(
    cov: Seq<Seq<int>>,
    rew: Seq<Seq<int>>,
    active: Seq<bool>,
    depth: nat,
)
    requires
        cov.len() >= 1,
        n_dims(cov) >= 1,
        forall|i: int| 0 <= i < active.len() ==> !active[i],
    ensures
        optimal_reward(cov, rew, active, depth) == 0,
    decreases depth,
{
    if depth == 0 {
        lemma_nobody_earns_nothing(rew, active, n_actions(rew));
    } else {
        let at = lemma_some_split_is_optimal(cov, rew, active, depth);
        let c = cov[at.1][at.0];
        lemma_nobody_is_worth_nothing(
            cov,
            rew,
            left_part(cov, active, at.0, c),
            (depth - 1) as nat,
        );
        lemma_nobody_is_worth_nothing(
            cov,
            rew,
            right_part(cov, active, at.0, c),
            (depth - 1) as nat,
        );
    }
}

/// Among the first `n` observations whose covariate `p` is at most `c`, one
/// has the largest value, where there is any.
pub proof fn lemma_largest_value_up_to(cov: Seq<Seq<int>>, p: int, c: int, n: int) -> (at: int)
    requires
        0 <= n <= cov.len(),
        exists|i: int| 0 <= i < n && (#[trigger] cov[i])[p] <= c,
    ensures
        0 <= at < n,
        cov[at][p] <= c,
        forall|i: int| 0 <= i < n && (#[trigger] cov[i])[p] <= c ==> cov[i][p] <= cov[at][p],
    decreases n,
{
    if exists|i: int| 0 <= i < n - 1 && (#[trigger] cov[i])[p] <= c {
        let before = lemma_largest_value_up_to(cov, p, c, n - 1);
        if cov[n - 1][p] <= c && cov[n - 1][p] >= cov[before][p] {
            n - 1
        } else {
            before
        }
    } else {
        let i = choose|i: int| 0 <= i < n && (#[trigger] cov[i])[p] <= c;
        assert(i == n - 1);
        n - 1
    }
}

/// A split at any number, whether a covariate takes it or not, with the best
/// trees one level lower on both sides, reaches no more than the optimal
/// reward.
pub proof fn lemma_any_cut_is_no_better(
    cov: Seq<Seq<int>>,
    rew: Seq<Seq<int>>,
    active: Seq<bool>,
    depth: nat,
    p: int,
    c: int,
)
    requires
        depth >= 1,
        cov.len() >= 1,
        active.len() == cov.len(),
        0 <= p < n_dims(cov),
    ensures
        split_reward(cov, rew, active, depth, p, c) <= optimal_reward(cov, rew, active, depth),
{
    let d = (depth - 1) as nat;
    if exists|i: int| 0 <= i < cov.len() && (#[trigger] cov[i])[p] <= c {
        let at = lemma_largest_value_up_to(cov, p, c, cov.len() as int);
        let v = cov[at][p];
        assert(left_part(cov, active, p, v) =~= left_part(cov, active, p, c)) by {
            assert forall|i: int| 0 <= i < active.len() implies (cov[i][p] <= v) == (cov[i][p]
                <= c) by {
                if (#[trigger] cov[i])[p] <= c {
                }
            }
        }
        assert(right_part(cov, active, p, v) =~= right_part(cov, active, p, c)) by {
            assert forall|i: int| 0 <= i < active.len() implies (cov[i][p] > v) == (cov[i][p]
                > c) by {
                if (#[trigger] cov[i])[p] <= c {
                }
            }
        }
        lemma_split_is_no_better(cov, rew, active, depth, p, at);
    } else {
        let l = left_part(cov, active, p, c);
        let r = right_part(cov, active, p, c);
        assert forall|i: int| 0 <= i < l.len() implies !l[i] by {
            if (#[trigger] cov[i])[p] <= c {
            }
        }
        assert(r =~= active) by {
            assert forall|i: int| 0 <= i < active.len() implies r[i] == active[i] by {
                if (#[trigger] cov[i])[p] <= c {
                }
            }
        }
        lemma_nobody_is_worth_nothing(cov, rew, l, d);
        lemma_deeper_is_no_worse(cov, rew, active, d);
    }
}

/// No complete tree of `depth` levels, whatever its covariates, cuts and
/// actions, earns more on the active observations than the optimal reward.
pub proof fn lemma_no_tree_is_better(
    tree: Node,
    cov: Seq<Seq<int>>,
    rew: Seq<Seq<int>>,
    active: Seq<bool>,
    depth: nat,
)
    requires
        cov.len() >= 1,
        active.len() == cov.len(),
        n_dims(cov) >= 1,
        is_policy_tree(tree, depth, n_dims(cov), n_actions(rew)),
    ensures
        policy_total(tree, cov, rew, active, active.len() as int) <= optimal_reward(
            cov,
            rew,
            active,
            depth,
        ),
    decreases tree,
{
    let n = active.len() as int;
    match (tree.left_child, tree.right_child) {
        (Some(l), Some(r)) => {
            let p = tree.cut_axis.unwrap() as int;
            let c = tree.cut_point.unwrap() as int;
            let d = (depth - 1) as nat;
            lemma_policy_total_of_branch(tree, cov, rew, active, n);
            lemma_no_tree_is_better(*l, cov, rew, left_part(cov, active, p, c), d);
            lemma_no_tree_is_better(*r, cov, rew, right_part(cov, active, p, c), d);
            lemma_any_cut_is_no_better(cov, rew, active, depth, p, c);
        },
        _ => {
            lemma_policy_total_of_leaf(tree, cov, rew, active, n);
            lemma_best_total_max(rew, active, n_actions(rew));
        },
    }
}

/// A tree that describes the data and has the optimal reward earns at least
/// as much on the active observations as any complete tree of the same depth.
pub proof fn lemma_optimal_tree_beats_every_tree(
    tree: Node,
    other: Node,
    cov: Seq<Seq<int>>,
    rew: Seq<Seq<int>>,
    active: Seq<bool>,
    depth: nat,
)
    requires
        cov.len() >= 1,
        active.len() == cov.len(),
        n_dims(cov) >= 1,
        tree.describes(cov, rew, active, depth),
        tree.reward == optimal_reward(cov, rew, active, depth),
        is_policy_tree(other, depth, n_dims(cov), n_actions(rew)),
    ensures
        policy_total(other, cov, rew, active, active.len() as int) <= policy_total(
            tree,
            cov,
            rew,
            active,
            active.len() as int,
        ),
        is_policy_tree(tree, depth, n_dims(cov), n_actions(rew)),
{
    lemma_reward_is_policy_total(tree, cov, rew, active, depth);
    lemma_described_tree_is_policy_tree(tree, cov, rew, active, depth);
    lemma_no_tree_is_better(other, cov, rew, active, depth);
}

} // verus!
