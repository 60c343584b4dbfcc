use vstd::prelude::*;

verus! {

/// The larger of two integers.
pub open spec fn greater(a: int, b: int) -> int {
    if a >= b {
        a
    } else {
        b
    }
}

/// Sum of the rewards of action `a` over the active observations among the
/// first `n`.
pub open spec fn action_total(rew: Seq<Seq<int>>, active: Seq<bool>, a: int, n: int) -> int
    decreases n,
{
    if n <= 0 {
        0
    } else {
        action_total(rew, active, a, n - 1) + if active[n - 1] {
            rew[n - 1][a]
        } else {
            0
        }
    }
}

/// Largest total reward among the first `k` actions (among the first one
/// where `k` is smaller).
pub open spec fn best_total(rew: Seq<Seq<int>>, active: Seq<bool>, k: int) -> int
    decreases k,
{
    if k <= 1 {
        action_total(rew, active, 0, active.len() as int)
    } else {
        greater(
            best_total(rew, active, k - 1),
            action_total(rew, active, k - 1, active.len() as int),
        )
    }
}

/// `a` is the lowest action whose total reward over the active observations is
/// the largest among `k` actions.
pub open spec fn is_best_action(rew: Seq<Seq<int>>, active: Seq<bool>, k: int, a: int) -> bool {
    let n = active.len() as int;
    let best = action_total(rew, active, a, n);
    &&& 0 <= a < k
    &&& forall|b: int| 0 <= b < a ==> action_total(rew, active, b, n) < best
    &&& forall|b: int| a <= b < k ==> action_total(rew, active, b, n) <= best
}

/// Number of actions of a reward table.
pub open spec fn n_actions(rew: Seq<Seq<int>>) -> int {
    if rew.len() > 0 {
        rew[0].len() as int
    } else {
        0
    }
}

/// Number of covariates of a covariate table.
pub open spec fn n_dims(cov: Seq<Seq<int>>) -> int {
    if cov.len() > 0 {
        cov[0].len() as int
    } else {
        0
    }
}

/// Reward of the best single action for the active observations.
pub open spec fn leaf_reward(rew: Seq<Seq<int>>, active: Seq<bool>) -> int {
    best_total(rew, active, n_actions(rew))
}

/// The active observations whose covariate `p` is at most `c`.
pub open spec fn left_part(cov: Seq<Seq<int>>, active: Seq<bool>, p: int, c: int) -> Seq<bool> {
    Seq::new(active.len(), |i: int| active[i] && cov[i][p] <= c)
}

/// The active observations whose covariate `p` is above `c`.
pub open spec fn right_part(cov: Seq<Seq<int>>, active: Seq<bool>, p: int, c: int) -> Seq<bool> {
    Seq::new(active.len(), |i: int| active[i] && cov[i][p] > c)
}

/// Largest total reward that a tree of `depth` levels of splits reaches on the
/// active observations. Cuts are the values that a covariate takes in the data.
pub open spec fn optimal_reward(
    cov: Seq<Seq<int>>,
    rew: Seq<Seq<int>>,
    active: Seq<bool>,
    depth: nat,
) -> int
    decreases depth, 3int, 0int,
{
    if depth == 0 {
        leaf_reward(rew, active)
    } else {
        best_over_dims(cov, rew, active, depth, n_dims(cov))
    }
}

/// Best reward of a tree of `depth` levels whose root splits on one of the
/// first `np` covariates (on the first where `np` is smaller).
pub open spec fn best_over_dims(
    cov: Seq<Seq<int>>,
    rew: Seq<Seq<int>>,
    active: Seq<bool>,
    depth: nat,
    np: int,
) -> int
    decreases depth, 2int, np,
{
    if np <= 1 {
        best_in_dim(cov, rew, active, depth, 0, cov.len() as int)
    } else {
        greater(
            best_over_dims(cov, rew, active, depth, np - 1),
            best_in_dim(cov, rew, active, depth, np - 1, cov.len() as int),
        )
    }
}

/// Best reward of a tree of `depth` levels whose root splits on covariate `p`
/// at the value of one of the first `n` observations (of the first where `n`
/// is smaller).
pub open spec fn best_in_dim(
    cov: Seq<Seq<int>>,
    rew: Seq<Seq<int>>,
    active: Seq<bool>,
    depth: nat,
    p: int,
    n: int,
) -> int
    decreases depth, 1int, n,
{
    if n <= 1 {
        split_reward(cov, rew, active, depth, p, cov[0][p])
    } else {
        greater(
            best_in_dim(cov, rew, active, depth, p, n - 1),
            split_reward(cov, rew, active, depth, p, cov[n - 1][p]),
        )
    }
}

/// Best reward of a tree of `depth` levels whose root sends covariate `p` at
/// most `c` to the left and the rest to the right.
pub open spec fn split_reward(
    cov: Seq<Seq<int>>,
    rew: Seq<Seq<int>>,
    active: Seq<bool>,
    depth: nat,
    p: int,
    c: int,
) -> int
    decreases depth, 0int, 0int,
{
    if depth == 0 {
        0
    } else {
        optimal_reward(cov, rew, left_part(cov, active, p, c), (depth - 1) as nat)
            + optimal_reward(cov, rew, right_part(cov, active, p, c), (depth - 1) as nat)
    }
}

} // verus!
