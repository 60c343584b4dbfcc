use crate::model::{
    action_total, best_in_dim, best_over_dims, best_total, is_best_action, leaf_reward,
    left_part, n_actions, n_dims, optimal_reward, right_part, split_reward,
};
use crate::matrix::rectangular;
use vstd::prelude::*;

verus! {

/// Number of active observations among the first `n`.
pub open spec fn active_count(active: Seq<bool>, n: int) -> int
    decreases n,
{
    if n <= 0 {
        0
    } else {
        active_count(active, n - 1) + if active[n - 1] {
            1int
        } else {
            0int
        }
    }
}

/// Every entry of `m` is a 64-bit signed integer.
pub open spec fn entries_fit(m: Seq<Seq<int>>) -> bool {
    forall|i: int, j: int|
        0 <= i < m.len() && 0 <= j < m[i].len() ==> i64::MIN <= #[trigger] m[i][j] <= i64::MAX
}

/// No sum of `count` entries is further from zero than this.
pub open spec fn reward_limit(count: int) -> int {
    0x8000_0000_0000_0000 * count
}

/// With no active observation the total is zero.
pub proof fn lemma_total_none(rew: Seq<Seq<int>>, active: Seq<bool>, a: int, n: int)
    requires
        forall|i: int| 0 <= i < n ==> !active[i],
    ensures
        action_total(rew, active, a, n) == 0,
    decreases n,
{
    if n > 0 {
        lemma_total_none(rew, active, a, n - 1);
    }
}

/// Changing the flag of observation `m` changes the total by its reward.
pub proof fn lemma_total_set(
    rew: Seq<Seq<int>>,
    active: Seq<bool>,
    m: int,
    flag: bool,
    a: int,
    n: int,
)
    requires
        0 <= m < active.len(),
        0 <= n <= active.len(),
    ensures
        action_total(rew, active.update(m, flag), a, n) == action_total(rew, active, a, n) + (if m
            < n && flag {
            rew[m][a]
        } else {
            0
        }) - (if m < n && active[m] {
            rew[m][a]
        } else {
            0
        }),
    decreases n,
{
    if n > 0 {
        lemma_total_set(rew, active, m, flag, a, n - 1);
    }
}

/// The two parts of a split hold every active observation once.
pub proof fn lemma_count_split(cov: Seq<Seq<int>>, active: Seq<bool>, p: int, c: int, n: int)
    requires
        0 <= n <= active.len(),
    ensures
        active_count(left_part(cov, active, p, c), n) + active_count(
            right_part(cov, active, p, c),
            n,
        ) == active_count(active, n),
        0 <= active_count(active, n) <= n,
    decreases n,
{
    if n > 0 {
        lemma_count_split(cov, active, p, c, n - 1);
    }
}

/// A total is at most the limit of an entry times the number of active
/// observations, in absolute value.
pub proof fn lemma_total_bound(rew: Seq<Seq<int>>, active: Seq<bool>, a: int, n: int)
    requires
        entries_fit(rew),
        0 <= n <= active.len(),
        active.len() == rew.len(),
        rectangular(rew, n_actions(rew)),
        0 <= a < n_actions(rew),
    ensures
        -reward_limit(active_count(active, n)) <= action_total(rew, active, a, n) <= reward_limit(
            active_count(active, n),
        ),
        0 <= active_count(active, n) <= n,
    decreases n,
{
    if n > 0 {
        lemma_total_bound(rew, active, a, n - 1);
        assert(rew[n - 1].len() == n_actions(rew));
        assert(i64::MIN <= rew[n - 1][a] <= i64::MAX);
    }
}

/// `best_total` is the largest total among the `k` actions, and one of them
/// reaches it.
pub proof fn lemma_best_total_max(rew: Seq<Seq<int>>, active: Seq<bool>, k: int)
    requires
        k >= 1,
    ensures
        forall|a: int|
            0 <= a < k ==> #[trigger] action_total(rew, active, a, active.len() as int)
                <= best_total(rew, active, k),
        exists|a: int|
            0 <= a < k && #[trigger] action_total(rew, active, a, active.len() as int)
                == best_total(rew, active, k),
    decreases k,
{
    let n = active.len() as int;
    if k > 1 {
        lemma_best_total_max(rew, active, k - 1);
        let w = choose|a: int|
            0 <= a < k - 1 && #[trigger] action_total(rew, active, a, n) == best_total(
                rew,
                active,
                k - 1,
            );
        if best_total(rew, active, k - 1) >= action_total(rew, active, k - 1, n) {
            assert(action_total(rew, active, w, n) == best_total(rew, active, k));
        } else {
            assert(action_total(rew, active, k - 1, n) == best_total(rew, active, k));
        }
    } else {
        assert(action_total(rew, active, 0, n) == best_total(rew, active, k));
    }
}

/// The best action reaches the reward of a leaf.
pub proof fn lemma_best_action_reward(rew: Seq<Seq<int>>, active: Seq<bool>, a: int)
    requires
        is_best_action(rew, active, n_actions(rew), a),
    ensures
        action_total(rew, active, a, active.len() as int) == leaf_reward(rew, active),
{
    lemma_best_total_max(rew, active, n_actions(rew));
}

/// `best_in_dim` is the largest reward among the cuts at the first `n`
/// observations' values, and one of them reaches it.
pub proof fn lemma_best_in_dim_max(
    cov: Seq<Seq<int>>,
    rew: Seq<Seq<int>>,
    active: Seq<bool>,
    depth: nat,
    p: int,
    n: int,
)
    requires
        n >= 1,
    ensures
        forall|i: int|
            0 <= i < n ==> split_reward(cov, rew, active, depth, p, #[trigger] cov[i][p])
                <= best_in_dim(cov, rew, active, depth, p, n),
        exists|i: int|
            0 <= i < n && split_reward(cov, rew, active, depth, p, #[trigger] cov[i][p])
                == best_in_dim(cov, rew, active, depth, p, n),
    decreases n,
{
    if n > 1 {
        lemma_best_in_dim_max(cov, rew, active, depth, p, n - 1);
        let w = choose|i: int|
            0 <= i < n - 1 && split_reward(cov, rew, active, depth, p, #[trigger] cov[i][p])
                == best_in_dim(cov, rew, active, depth, p, n - 1);
        if best_in_dim(cov, rew, active, depth, p, n - 1) >= split_reward(
            cov,
            rew,
            active,
            depth,
            p,
            cov[n - 1][p],
        ) {
            assert(split_reward(cov, rew, active, depth, p, cov[w][p]) == best_in_dim(
                cov,
                rew,
                active,
                depth,
                p,
                n,
            ));
        } else {
            assert(split_reward(cov, rew, active, depth, p, cov[n - 1][p]) == best_in_dim(
                cov,
                rew,
                active,
                depth,
                p,
                n,
            ));
        }
    } else {
        assert(split_reward(cov, rew, active, depth, p, cov[0][p]) == best_in_dim(
            cov,
            rew,
            active,
            depth,
            p,
            n,
        ));
    }
}

/// `best_over_dims` is the largest of the first `np` covariates' best
/// rewards, and one of them reaches it.
pub proof fn lemma_best_over_dims_max(
    cov: Seq<Seq<int>>,
    rew: Seq<Seq<int>>,
    active: Seq<bool>,
    depth: nat,
    np: int,
)
    requires
        np >= 1,
    ensures
        forall|p: int|
            0 <= p < np ==> #[trigger] best_in_dim(cov, rew, active, depth, p, cov.len() as int)
                <= best_over_dims(cov, rew, active, depth, np),
        exists|p: int|
            0 <= p < np && #[trigger] best_in_dim(cov, rew, active, depth, p, cov.len() as int)
                == best_over_dims(cov, rew, active, depth, np),
    decreases np,
{
    let n = cov.len() as int;
    if np > 1 {
        lemma_best_over_dims_max(cov, rew, active, depth, np - 1);
        let w = choose|p: int|
            0 <= p < np - 1 && #[trigger] best_in_dim(cov, rew, active, depth, p, n)
                == best_over_dims(cov, rew, active, depth, np - 1);
        if best_over_dims(cov, rew, active, depth, np - 1) >= best_in_dim(
            cov,
            rew,
            active,
            depth,
            np - 1,
            n,
        ) {
            assert(best_in_dim(cov, rew, active, depth, w, n) == best_over_dims(
                cov,
                rew,
                active,
                depth,
                np,
            ));
        } else {
            assert(best_in_dim(cov, rew, active, depth, np - 1, n) == best_over_dims(
                cov,
                rew,
                active,
                depth,
                np,
            ));
        }
    } else {
        assert(best_in_dim(cov, rew, active, depth, 0, n) == best_over_dims(
            cov,
            rew,
            active,
            depth,
            np,
        ));
    }
}

/// A reward that some cut of covariate `p` reaches and none of its cuts
/// exceeds is the best of that covariate.
pub proof fn lemma_dim_best_is(
    cov: Seq<Seq<int>>,
    rew: Seq<Seq<int>>,
    active: Seq<bool>,
    depth: nat,
    p: int,
    best: int,
    at: int,
)
    requires
        cov.len() >= 1,
        0 <= at < cov.len(),
        best == split_reward(cov, rew, active, depth, p, cov[at][p]),
        forall|i: int|
            0 <= i < cov.len() ==> split_reward(cov, rew, active, depth, p, #[trigger] cov[i][p])
                <= best,
    ensures
        best_in_dim(cov, rew, active, depth, p, cov.len() as int) == best,
{
    lemma_best_in_dim_max(cov, rew, active, depth, p, cov.len() as int);
    assert(split_reward(cov, rew, active, depth, p, cov[at][p]) <= best_in_dim(
        cov,
        rew,
        active,
        depth,
        p,
        cov.len() as int,
    ));
}

/// A reward that some covariate's best reaches and none exceeds is the
/// optimal reward.
pub proof fn lemma_optimal_is(
    cov: Seq<Seq<int>>,
    rew: Seq<Seq<int>>,
    active: Seq<bool>,
    depth: nat,
    best: int,
    at: int,
)
    requires
        depth >= 1,
        0 <= at < n_dims(cov),
        best == best_in_dim(cov, rew, active, depth, at, cov.len() as int),
        forall|p: int|
            0 <= p < n_dims(cov) ==> #[trigger] best_in_dim(
                cov,
                rew,
                active,
                depth,
                p,
                cov.len() as int,
            ) <= best,
    ensures
        optimal_reward(cov, rew, active, depth) == best,
{
    lemma_best_over_dims_max(cov, rew, active, depth, n_dims(cov));
}

/// The optimal reward is at most the limit of an entry times the number of
/// active observations, in absolute value.
pub proof fn lemma_optimal_bound(
    cov: Seq<Seq<int>>,
    rew: Seq<Seq<int>>,
    active: Seq<bool>,
    depth: nat,
)
    requires
        entries_fit(rew),
        active.len() == rew.len(),
        cov.len() == rew.len(),
        cov.len() >= 1,
        n_dims(cov) >= 1,
        n_actions(rew) >= 1,
        rectangular(rew, n_actions(rew)),
    ensures
        -reward_limit(active_count(active, active.len() as int)) <= optimal_reward(
            cov,
            rew,
            active,
            depth,
        ) <= reward_limit(active_count(active, active.len() as int)),
        0 <= active_count(active, active.len() as int) <= active.len(),
    decreases depth,
{
    let n = active.len() as int;
    if depth == 0 {
        lemma_best_total_max(rew, active, n_actions(rew));
        let a = choose|a: int|
            0 <= a < n_actions(rew) && #[trigger] action_total(rew, active, a, n) == best_total(
                rew,
                active,
                n_actions(rew),
            );
        lemma_total_bound(rew, active, a, n);
    } else {
        lemma_best_over_dims_max(cov, rew, active, depth, n_dims(cov));
        let p = choose|p: int|
            0 <= p < n_dims(cov) && #[trigger] best_in_dim(cov, rew, active, depth, p, n)
                == best_over_dims(cov, rew, active, depth, n_dims(cov));
        lemma_best_in_dim_max(cov, rew, active, depth, p, n);
        let i = choose|i: int|
            0 <= i < n && split_reward(cov, rew, active, depth, p, #[trigger] cov[i][p])
                == best_in_dim(cov, rew, active, depth, p, n);
        let c = cov[i][p];
        lemma_optimal_bound(cov, rew, left_part(cov, active, p, c), (depth - 1) as nat);
        lemma_optimal_bound(cov, rew, right_part(cov, active, p, c), (depth - 1) as nat);
        lemma_count_split(cov, active, p, c, n);

    }
}

/// Where the best of every covariate before `p` is below `reward`, so is
/// every cut of those covariates.
pub proof fn lemma_earlier_dims_are_worse(
    cov: Seq<Seq<int>>,
    rew: Seq<Seq<int>>,
    active: Seq<bool>,
    depth: nat,
    p: int,
    reward: int,
)
    requires
        cov.len() >= 1,
        forall|q: int|
            0 <= q < p ==> #[trigger] best_in_dim(cov, rew, active, depth, q, cov.len() as int)
                < reward,
    ensures
        forall|q: int, i: int|
            0 <= q < p && 0 <= i < cov.len() ==> split_reward(
                cov,
                rew,
                active,
                depth,
                q,
                #[trigger] cov[i][q],
            ) < reward,
{
    assert forall|q: int, i: int| 0 <= q < p && 0 <= i < cov.len() implies split_reward(
        cov,
        rew,
        active,
        depth,
        q,
        #[trigger] cov[i][q],
    ) < reward by {
        lemma_best_in_dim_max(cov, rew, active, depth, q, cov.len() as int);
        assert(best_in_dim(cov, rew, active, depth, q, cov.len() as int) < reward);
    }
}

} // verus!
