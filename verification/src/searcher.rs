use crate::bundle_index::{bundle_holds, cuts_ascend, dim_wf, has_cut, index_wf};
use crate::laws::{lemma_some_split_is_optimal, lemma_split_is_no_better};
use crate::lemmas::{
    entries_fit, lemma_best_action_reward, lemma_count_split, lemma_dim_best_is,
    lemma_earlier_dims_are_worse, lemma_optimal_bound, lemma_optimal_is, lemma_total_bound,
    lemma_total_none, lemma_total_set,
};
use crate::matrix::{rectangular, Matrix};
use crate::model::{
    action_total, best_in_dim, is_best_action, leaf_reward, left_part, n_actions, n_dims,
    optimal_reward, right_part, split_reward,
};
use crate::node::{is_cut_value, Node};
use crate::observation_bundle::ObservationBundle;
use rayon::iter::{IntoParallelIterator, ParallelIterator};
use vstd::prelude::*;

verus! {

broadcast use vstd::std_specs::hash::group_hash_axioms;

/// `i` is the first position of the largest number of `xs`.
pub open spec fn is_first_max(xs: Seq<i128>, i: int) -> bool {
    &&& 0 <= i < xs.len()
    &&& forall|j: int| 0 <= j < i ==> xs[j] < xs[i]
    &&& forall|j: int| i <= j < xs.len() ==> xs[j] <= xs[i]
}

/// Calls `iter_utils::argmax` on the numbers of `xs`. It keeps the first
/// position and replaces it only by a strictly larger number, so it returns
/// the first position of the largest number, and nothing for no numbers.
#[verifier::external_body]
fn argmax_of(xs: &Vec<i128>) -> (r: Option<usize>)
    ensures
        match r {
            None => xs@.len() == 0,
            Some(i) => is_first_max(xs@, i as int),
        },
{
    iter_utils::argmax(xs.iter())
}

/// The active observations that lie in the bundles of `dim` before bundle
/// `b`: those that the walk along covariate `p` has moved to the left when
/// it reaches `b`.
pub open spec fn moved_before(
    cov: Seq<Seq<int>>,
    dim: Seq<ObservationBundle>,
    active: Seq<bool>,
    p: int,
    b: int,
) -> Seq<bool> {
    Seq::new(active.len(), |i: int| active[i] && b > 0 && cov[i][p] <= dim[b - 1].cut_point)
}

/// The active observations that lie in bundle `b` of `dim` or after it.
pub open spec fn kept_before(
    cov: Seq<Seq<int>>,
    dim: Seq<ObservationBundle>,
    active: Seq<bool>,
    p: int,
    b: int,
) -> Seq<bool> {
    Seq::new(active.len(), |i: int| active[i] && !(b > 0 && cov[i][p] <= dim[b - 1].cut_point))
}

/// The cut of covariate `p` at `c`, with the leaves `l` and `r` (action and
/// reward) and the reward `total`, is the first of the best single splits
/// among those of the covariates up to `p` and, on `p`, of the cuts up to `c`.
pub open spec fn single_split_choice(
    cov: Seq<Seq<int>>,
    rew: Seq<Seq<int>>,
    active: Seq<bool>,
    p: int,
    c: int,
    l: (usize, i128),
    r: (usize, i128),
    total: int,
) -> bool {
    let lp = left_part(cov, active, p, c);
    let rp = right_part(cov, active, p, c);
    &&& is_cut_value(cov, p, c)
    &&& is_best_action(rew, lp, n_actions(rew), l.0 as int)
    &&& l.1 == action_total(rew, lp, l.0 as int, lp.len() as int)
    &&& is_best_action(rew, rp, n_actions(rew), r.0 as int)
    &&& r.1 == action_total(rew, rp, r.0 as int, rp.len() as int)
    &&& total == l.1 + r.1
    &&& total == split_reward(cov, rew, active, 1, p, c)
    &&& forall|q: int, i: int|
        0 <= q < p && 0 <= i < cov.len() ==> split_reward(
            cov,
            rew,
            active,
            1,
            q,
            #[trigger] cov[i][q],
        ) < total
    &&& forall|i: int|
        0 <= i < cov.len() && cov[i][p] < c ==> split_reward(
            cov,
            rew,
            active,
            1,
            p,
            #[trigger] cov[i][p],
        ) < total
}

/// The observations under consideration in one branch of the search, with
/// the total reward of each action over them. The bundle index and the two
/// tables are shared and never changed.
pub struct TreeSearcher<'a> {
    pub sets: &'a Vec<Vec<ObservationBundle>>,
    pub covariates: &'a Matrix,
    pub scores: &'a Matrix,
    pub active: Vec<bool>,
    pub max_treatment_utils: Vec<i128>,
}

/// The tables and the index fit together: as many rows in both tables, at
/// least one row, one covariate and one action, and `sets` is the index of
/// the covariates.
pub open spec fn tables_wf(
    sets: &Vec<Vec<ObservationBundle>>,
    covariates: &Matrix,
    scores: &Matrix,
) -> bool {
    &&& covariates.wf()
    &&& scores.wf()
    &&& covariates@.len() == scores@.len()
    &&& covariates@.len() >= 1
    &&& covariates.ncols >= 1
    &&& scores.ncols >= 1
    &&& index_wf(sets@, covariates@)
}

impl<'a> TreeSearcher<'a> {
    /// The tables fit together, there is a flag for each observation, and
    /// the totals are those of the active observations.
    pub open spec fn wf(&self) -> bool {
        &&& tables_wf(self.sets, self.covariates, self.scores)
        &&& self.active@.len() == self.scores@.len()
        &&& self.max_treatment_utils@.len() == self.scores.ncols
        &&& forall|a: int|
            0 <= a < self.max_treatment_utils@.len() ==> (#[trigger] self.max_treatment_utils@[a])
                == action_total(self.scores@, self.active@, a, self.active@.len() as int)
    }

    /// `other` works on the same tables and index.
    pub open spec fn same_tables(&self, other: &TreeSearcher<'a>) -> bool {
        &&& self.sets == other.sets
        &&& self.covariates == other.covariates
        &&& self.scores == other.scores
    }

    /// What the tables of a well-formed searcher look like as sequences.
    pub proof fn lemma_tables(&self)
        requires
            tables_wf(self.sets, self.covariates, self.scores),
        ensures
            entries_fit(self.scores@),
            rectangular(self.scores@, self.scores.ncols as int),
            rectangular(self.covariates@, self.covariates.ncols as int),
            n_actions(self.scores@) == self.scores.ncols,
            n_dims(self.covariates@) == self.covariates.ncols,
            self.sets@.len() == self.covariates.ncols,
    {
        assert(self.scores.rows@[0]@.len() == self.scores.ncols);
        assert(self.covariates.rows@[0]@.len() == self.covariates.ncols);
    }

    /// A searcher with no active observation.
    pub fn new_empty(
        sets: &'a Vec<Vec<ObservationBundle>>,
        covariates: &'a Matrix,
        scores: &'a Matrix,
    ) -> (s: Self)
        requires
            tables_wf(sets, covariates, scores),
        ensures
            s.wf(),
            s.sets == sets && s.covariates == covariates && s.scores == scores,
            s.active@ == Seq::new(scores@.len(), |i: int| false),
    {
        let n: usize = scores.nrows();
        let k: usize = scores.ncols();
        let active: Vec<bool> = vec![false; n];
        let max_treatment_utils: Vec<i128> = vec![0i128; k];
        let s = TreeSearcher { sets, covariates, scores, active, max_treatment_utils };
        proof {
            assert(s.active@ =~= Seq::new(scores@.len(), |i: int| false));
            assert forall|a: int| 0 <= a < k implies (#[trigger] s.max_treatment_utils@[a])
                == action_total(scores@, s.active@, a, n as int) by {
                lemma_total_none(scores@, s.active@, a, n as int);
            }
        }
        s
    }

    /// A searcher with every observation active.
    pub fn new_full(
        sets: &'a Vec<Vec<ObservationBundle>>,
        covariates: &'a Matrix,
        scores: &'a Matrix,
    ) -> (s: Self)
        requires
            tables_wf(sets, covariates, scores),
        ensures
            s.wf(),
            s.sets == sets && s.covariates == covariates && s.scores == scores,
            s.active@ == Seq::new(scores@.len(), |i: int| true),
    {
        let n: usize = scores.nrows();
        let k: usize = scores.ncols();
        let active: Vec<bool> = vec![true; n];
        let mut totals: Vec<i128> = vec![0i128; k];
        let mut s = TreeSearcher { sets, covariates, scores, active, max_treatment_utils: totals };
        proof {
            s.lemma_tables();
            assert(s.active@ =~= Seq::new(scores@.len(), |i: int| true));
        }
        let mut i: usize = 0;
        while i < n
            invariant
                i <= n,
                n == scores@.len(),
                k == scores.ncols,
                tables_wf(sets, covariates, scores),
                s.sets == sets && s.covariates == covariates && s.scores == scores,
                s.active@ == Seq::new(scores@.len(), |i: int| true),
                s.max_treatment_utils@.len() == k,
                forall|a: int|
                    0 <= a < k ==> (#[trigger] s.max_treatment_utils@[a]) == action_total(
                        scores@,
                        s.active@,
                        a,
                        i as int,
                    ),
            decreases n - i,
        {
            let mut a: usize = 0;
            while a < k
                invariant
                    i < n,
                    a <= k,
                    n == scores@.len(),
                    k == scores.ncols,
                    tables_wf(sets, covariates, scores),
                    s.sets == sets && s.covariates == covariates && s.scores == scores,
                    s.active@ == Seq::new(scores@.len(), |i: int| true),
                    s.max_treatment_utils@.len() == k,
                    forall|b: int|
                        0 <= b < a ==> (#[trigger] s.max_treatment_utils@[b]) == action_total(
                            scores@,
                            s.active@,
                            b,
                            i + 1,
                        ),
                    forall|b: int|
                        a <= b < k ==> (#[trigger] s.max_treatment_utils@[b]) == action_total(
                            scores@,
                            s.active@,
                            b,
                            i as int,
                        ),
                decreases k - a,
            {
                proof {
                    s.lemma_tables();
                    lemma_total_bound(scores@, s.active@, a as int, i as int);
                    lemma_total_bound(scores@, s.active@, a as int, i + 1);
                }
                let x: i64 = scores.get(i, a);
                let t: i128 = s.max_treatment_utils[a];
                s.max_treatment_utils.set(a, t + x as i128);
                a += 1;
            }
            i += 1;
        }
        s
    }

    /// A copy that can change on its own.
    pub fn fork(&self) -> (s: Self)
        ensures
            s.same_tables(self),
            s.active@ == self.active@,
            s.max_treatment_utils@ == self.max_treatment_utils@,
            self.wf() ==> s.wf(),
    {
        let active = self.active.clone();
        let max_treatment_utils = self.max_treatment_utils.clone();
        assert(active@ =~= self.active@);
        assert(max_treatment_utils@ =~= self.max_treatment_utils@);
        TreeSearcher {
            sets: self.sets,
            covariates: self.covariates,
            scores: self.scores,
            active,
            max_treatment_utils,
        }
    }

    /// Makes observation `index` active and adds its rewards to the totals.
    pub fn add(&mut self, index: usize)
        requires
            old(self).wf(),
            index < old(self).active@.len(),
            !old(self).active@[index as int],
        ensures
            final(self).wf(),
            final(self).same_tables(old(self)),
            final(self).active@ == old(self).active@.update(index as int, true),
    {
        let k: usize = self.scores.ncols();
        let rows: usize = self.active.len();
        let ghost before = self.active@;
        let ghost after = before.update(index as int, true);
        let ghost rew = self.scores@;
        let ghost n = before.len() as int;
        let mut a: usize = 0;
        while a < k
            invariant
                a <= k,
                k == self.scores.ncols,
                tables_wf(self.sets, self.covariates, self.scores),
                self.same_tables(old(self)),
                self.active@ == before,
                rew == self.scores@,
                index < n,
                n == before.len(),
                n == rows,
                n == rew.len(),
                !before[index as int],
                after == before.update(index as int, true),
                self.max_treatment_utils@.len() == k,
                forall|b: int|
                    0 <= b < a ==> (#[trigger] self.max_treatment_utils@[b]) == action_total(
                        rew,
                        after,
                        b,
                        n,
                    ),
                forall|b: int|
                    a <= b < k ==> (#[trigger] self.max_treatment_utils@[b]) == action_total(
                        rew,
                        before,
                        b,
                        n,
                    ),
            decreases k - a,
        {
            proof {
                self.lemma_tables();
                lemma_total_set(rew, before, index as int, true, a as int, n);
                lemma_total_bound(rew, after, a as int, n);
            }
            let x: i64 = self.scores.get(index, a);
            let t: i128 = self.max_treatment_utils[a];
            self.max_treatment_utils.set(a, t + x as i128);
            a += 1;
        }
        self.active.set(index, true);
    }

    /// Makes observation `index` inactive and takes its rewards from the
    /// totals.
    pub fn remove(&mut self, index: usize)
        requires
            old(self).wf(),
            index < old(self).active@.len(),
            old(self).active@[index as int],
        ensures
            final(self).wf(),
            final(self).same_tables(old(self)),
            final(self).active@ == old(self).active@.update(index as int, false),
    {
        let k: usize = self.scores.ncols();
        let rows: usize = self.active.len();
        let ghost before = self.active@;
        let ghost after = before.update(index as int, false);
        let ghost rew = self.scores@;
        let ghost n = before.len() as int;
        let mut a: usize = 0;
        while a < k
            invariant
                a <= k,
                k == self.scores.ncols,
                tables_wf(self.sets, self.covariates, self.scores),
                self.same_tables(old(self)),
                self.active@ == before,
                rew == self.scores@,
                index < n,
                n == before.len(),
                n == rows,
                n == rew.len(),
                before[index as int],
                after == before.update(index as int, false),
                self.max_treatment_utils@.len() == k,
                forall|b: int|
                    0 <= b < a ==> (#[trigger] self.max_treatment_utils@[b]) == action_total(
                        rew,
                        after,
                        b,
                        n,
                    ),
                forall|b: int|
                    a <= b < k ==> (#[trigger] self.max_treatment_utils@[b]) == action_total(
                        rew,
                        before,
                        b,
                        n,
                    ),
            decreases k - a,
        {
            proof {
                self.lemma_tables();
                lemma_total_set(rew, before, index as int, false, a as int, n);
                lemma_total_bound(rew, after, a as int, n);
            }
            let x: i64 = self.scores.get(index, a);
            let t: i128 = self.max_treatment_utils[a];
            self.max_treatment_utils.set(a, t - x as i128);
            a += 1;
        }
        self.active.set(index, false);
    }

    /// The lowest action with the largest total over the active
    /// observations, and that total.
    pub fn best_action(&self) -> (r: (usize, i128))
        requires
            self.wf(),
        ensures
            is_best_action(self.scores@, self.active@, n_actions(self.scores@), r.0 as int),
            r.1 == action_total(self.scores@, self.active@, r.0 as int, self.active@.len() as int),
            r.1 == leaf_reward(self.scores@, self.active@),
    {
        proof {
            self.lemma_tables();
        }
        let found = argmax_of(&self.max_treatment_utils);
        let a: usize = match found {
            Some(a) => a,
            None => 0,
        };
        let reward: i128 = self.max_treatment_utils[a];
        proof {
            let n = self.active@.len() as int;
            assert forall|b: int| 0 <= b < self.scores.ncols implies action_total(
                self.scores@,
                self.active@,
                b,
                n,
            ) == #[trigger] self.max_treatment_utils@[b] by {}
            let xs = self.max_treatment_utils@;
            let k = n_actions(self.scores@);
            assert(is_first_max(xs, a as int));
            assert(0 <= a < k);
            assert forall|b: int| 0 <= b < a implies action_total(self.scores@, self.active@, b, n)
                < action_total(self.scores@, self.active@, a as int, n) by {
                assert(xs[b] < xs[a as int]);
            }
            assert forall|b: int| a <= b < k implies action_total(self.scores@, self.active@, b, n)
                <= action_total(self.scores@, self.active@, a as int, n) by {
                assert(xs[b] <= xs[a as int]);
            }
            lemma_best_action_reward(self.scores@, self.active@, a as int);
        }
        (a, reward)
    }
    /// `node` is a best tree of `depth` levels for the active observations
    /// among those whose root splits on covariate `p`.
    pub open spec fn is_dimension_result(&self, node: Node, p: int, depth: nat) -> bool {
        &&& node.describes(self.covariates@, self.scores@, self.active@, depth)
        &&& node.cut_axis == Some(p as usize)
        &&& node.reward == best_in_dim(
            self.covariates@,
            self.scores@,
            self.active@,
            depth,
            p,
            self.active@.len() as int,
        )
        &&& node.first_cut(self.covariates@, self.scores@, self.active@, depth)
    }

    /// `node` is a best tree of `depth` levels for the active observations.
    pub open spec fn is_result(&self, node: Node, depth: nat) -> bool {
        &&& node.describes(self.covariates@, self.scores@, self.active@, depth)
        &&& node.reward == optimal_reward(self.covariates@, self.scores@, self.active@, depth)
        &&& node.first_choice(self.covariates@, self.scores@, self.active@, depth)
    }

    /// Moves the active observations of bundle `b` of covariate `dim` from
    /// `right` to `left`, where the bundles before it have been moved.
    fn shift_bundle(
        left: TreeSearcher<'a>,
        right: TreeSearcher<'a>,
        dim: usize,
        b: usize,
        Ghost(active): Ghost<Seq<bool>>,
    ) -> (r: (TreeSearcher<'a>, TreeSearcher<'a>))
        requires
            left.wf(),
            right.wf(),
            left.same_tables(&right),
            dim < left.covariates.ncols,
            b < left.sets@[dim as int]@.len(),
            active.len() == left.active@.len(),
            left.active@ == moved_before(
                left.covariates@,
                left.sets@[dim as int]@,
                active,
                dim as int,
                b as int,
            ),
            right.active@ == kept_before(
                left.covariates@,
                left.sets@[dim as int]@,
                active,
                dim as int,
                b as int,
            ),
        ensures
            r.0.wf(),
            r.1.wf(),
            r.0.same_tables(&left),
            r.1.same_tables(&left),
            r.0.active@ == left_part(
                left.covariates@,
                active,
                dim as int,
                left.sets@[dim as int]@[b as int].cut_point as int,
            ),
            r.1.active@ == right_part(
                left.covariates@,
                active,
                dim as int,
                left.sets@[dim as int]@[b as int].cut_point as int,
            ),
    {
        let ghost cov = left.covariates@;
        let ghost dimseq = left.sets@[dim as int]@;
        let ghost was = left.active@;
        let ghost n = active.len() as int;
        let ghost p = dim as int;
        let sets = left.sets;
        let covariates = left.covariates;
        let scores = left.scores;
        proof {
            left.lemma_tables();
        }
        let rows: usize = left.active.len();
        assert(n == rows);
        let bundle = &sets[dim][b];
        let ghost cut = bundle.cut_point as int;
        assert(dim_wf(dimseq, cov, p));
        assert(bundle_holds(dimseq[b as int], cov, p));
        let mut left = left;
        let mut right = right;
        let ghost mut done: Set<usize> = Set::empty();
        for member in iter: bundle.indexes.iter()
            invariant
                iter.seq().unref().to_set() == bundle.indexes@,
                bundle_holds(*bundle, cov, p),
                left.wf(),
                right.wf(),
                left.sets == sets && left.covariates == covariates && left.scores == scores,
                right.sets == sets && right.covariates == covariates && right.scores == scores,
                cov == covariates@,
                cov.len() == n,
                left.active@.len() == n,
                right.active@.len() == n,
                was.len() == n,
                active.len() == n,
                n == rows,
                forall|m: usize|
                    done.contains(m) <==> (exists|t: int|
                        0 <= t < iter.index() && #[trigger] iter.seq().unref()[t] == m),
                forall|i: int|
                    0 <= i < n ==> #[trigger] left.active@[i] == (was[i] || (active[i]
                        && done.contains(i as usize))),
                forall|i: int|
                    0 <= i < n ==> #[trigger] right.active@[i] == (active[i] && !left.active@[i]),
        {
            let index: usize = *member;
            let ghost left_was = left.active@;
            let ghost right_was = right.active@;
            proof {
                assert(member == iter.seq()[iter.index() as int]);
                assert(iter.seq().unref()[iter.index() as int] == index);
                assert(iter.seq().unref().to_set().contains(index));
                assert(bundle.members().contains(index));
            }
            if right.active[index] {
                left.add(index);
                right.remove(index);
            }
            proof {
                done = done.insert(index);
                assert forall|i: int| 0 <= i < n implies #[trigger] left.active@[i] == (was[i] || (
                active[i] && done.contains(i as usize))) by {
                    if i == index {
                        assert(right_was[i] == (active[i] && !left_was[i]));
                    }
                }
            }
        }
        proof {
            assert(done =~= bundle.indexes@);
            assert(cuts_ascend(dimseq));
            assert forall|i: int| 0 <= i < n implies #[trigger] left.active@[i] == (active[i]
                && cov[i][p] <= cut) by {
                assert(bundle.members().contains(i as usize) <==> cov[i][p] == cut);
                if active[i] && cov[i][p] <= cut {
                    assert(has_cut(dimseq, cov[i][p]));
                    let c = choose|c: int|
                        0 <= c < dimseq.len() && (#[trigger] dimseq[c]).cut_point == cov[i][p];
                    if c < b {
                        if c < b - 1 {
                            assert(dimseq[c].cut_point < dimseq[b - 1].cut_point);
                        }
                        assert(was[i]);
                    } else if c > b {
                        assert(dimseq[b as int].cut_point < dimseq[c].cut_point);
                    }
                }
                if was[i] {
                    assert(dimseq[b - 1].cut_point < dimseq[b as int].cut_point);
                }
            }
            assert(left.active@ =~= left_part(cov, active, p, cut));
            assert(right.active@ =~= right_part(cov, active, p, cut));
        }
        (left, right)
    }

    /// The leaf for the active observations: their best action and its total.
    fn leaf(&self) -> (node: Node)
        requires
            self.wf(),
        ensures
            self.is_result(node, 0),
    {
        let (action, reward) = self.best_action();
        Node::new_leaf(reward, action)
    }

    /// A best tree of `depth` levels for the active observations; a leaf
    /// where `depth` is 0.
    fn subtree(&self, depth: usize) -> (node: Node)
        requires
            self.wf(),
        ensures
            self.is_result(node, depth as nat),
        decreases depth, 5int,
    {
        if depth == 0 {
            self.leaf()
        } else {
            self.recursive_tree_search(depth, false)
        }
    }

    /// Searches the trees of `depth` levels whose root splits on covariate
    /// `dim`: walks its bundles in ascending order, moves each from the right
    /// side to the left, solves both sides one level lower, and keeps the
    /// first cut with the largest sum.
    pub fn single_dimension_recursive_search(&self, dim: usize, depth: usize) -> (node: Node)
        requires
            self.wf(),
            dim < self.covariates.ncols,
            depth >= 1,
        ensures
            self.is_dimension_result(node, dim as int, depth as nat),
        decreases depth, 1int,
    {
        let ghost cov = self.covariates@;
        let ghost rew = self.scores@;
        let ghost active = self.active@;
        let ghost n = active.len() as int;
        let ghost p = dim as int;
        let ghost d = depth as nat;
        let sets = self.sets;
        let ghost dimseq = sets@[p]@;
        proof {
            self.lemma_tables();
            assert(dim_wf(dimseq, cov, p));
        }
        let n_bundles: usize = sets[dim].len();
        let rows: usize = self.active.len();
        let mut left = Self::new_empty(self.sets, self.covariates, self.scores);
        let mut right = self.fork();
        let mut best: Option<Node> = None;
        let ghost mut best_at: int = 0;
        let mut b: usize = 0;
        proof {
            assert(left.active@ =~= moved_before(cov, dimseq, active, p, 0));
            assert(right.active@ =~= kept_before(cov, dimseq, active, p, 0));
        }
        while b < n_bundles
            invariant
                b <= n_bundles,
                n_bundles == dimseq.len(),
                dimseq == sets@[p]@,
                sets == self.sets,
                self.wf(),
                dim < self.covariates.ncols,
                depth >= 1,
                d == depth,
                p == dim,
                cov == self.covariates@,
                rew == self.scores@,
                active == self.active@,
                n == active.len(),
                n == rows,
                dim_wf(dimseq, cov, p),
                left.wf(),
                right.wf(),
                left.same_tables(self),
                right.same_tables(self),
                left.active@ == moved_before(cov, dimseq, active, p, b as int),
                right.active@ == kept_before(cov, dimseq, active, p, b as int),
                b > 0 ==> best.is_some(),
                best.is_some() ==> {
                    let node = best.unwrap();
                    &&& node.describes(cov, rew, active, d)
                    &&& node.cut_axis == Some(dim)
                    &&& node.cut_point.is_some()
                    &&& node.left_child.is_some()
                    &&& node.right_child.is_some()
                    &&& 0 <= best_at < b
                    &&& dimseq[best_at].cut_point == node.cut_point.unwrap()
                    &&& is_cut_value(cov, p, node.cut_point.unwrap() as int)
                    &&& node.reward == split_reward(
                        cov,
                        rew,
                        active,
                        d,
                        p,
                        node.cut_point.unwrap() as int,
                    )
                    &&& node.left_child.unwrap().first_choice(
                        cov,
                        rew,
                        left_part(cov, active, p, node.cut_point.unwrap() as int),
                        (d - 1) as nat,
                    )
                    &&& node.right_child.unwrap().first_choice(
                        cov,
                        rew,
                        right_part(cov, active, p, node.cut_point.unwrap() as int),
                        (d - 1) as nat,
                    )
                    &&& forall|c: int|
                        0 <= c < b && (#[trigger] dimseq[c]).cut_point < node.cut_point.unwrap()
                            ==> split_reward(cov, rew, active, d, p, dimseq[c].cut_point as int)
                            < node.reward
                },
                forall|c: int|
                    0 <= c < b ==> split_reward(
                        cov,
                        rew,
                        active,
                        d,
                        p,
                        (#[trigger] dimseq[c]).cut_point as int,
                    ) <= best.unwrap().reward,
            decreases n_bundles - b,
        {
            let cut: i64 = sets[dim][b].cut_point;
            let moved = Self::shift_bundle(left, right, dim, b, Ghost(active));
            left = moved.0;
            right = moved.1;
            let tree_l = left.subtree(depth - 1);
            let tree_r = right.subtree(depth - 1);
            proof {
                let lp = left_part(cov, active, p, cut as int);
                let rp = right_part(cov, active, p, cut as int);
                lemma_optimal_bound(cov, rew, lp, (d - 1) as nat);
                lemma_optimal_bound(cov, rew, rp, (d - 1) as nat);
                lemma_count_split(cov, active, p, cut as int, n);
                assert(tree_l.reward + tree_r.reward == split_reward(
                    cov,
                    rew,
                    active,
                    d,
                    p,
                    cut as int,
                ));
                assert(bundle_holds(dimseq[b as int], cov, p));
                let w = choose|m: usize| #[trigger] dimseq[b as int].members().contains(m);
                assert(cov[w as int][p] == cut);
                assert(is_cut_value(cov, p, cut as int));
            }
            let total: i128 = tree_l.reward + tree_r.reward;
            let better: bool = match &best {
                None => true,
                Some(node) => total > node.reward,
            };
            if better {
                best = Some(Node::new_branch(tree_l, tree_r, dim, cut));
                proof {
                    best_at = b as int;
                }
            } else {
                assert(dimseq[best_at].cut_point < dimseq[b as int].cut_point);
            }
            b += 1;
            proof {
                assert(left.active@ =~= moved_before(cov, dimseq, active, p, b as int));
                assert(right.active@ =~= kept_before(cov, dimseq, active, p, b as int));
            }
        }
        proof {
            assert(has_cut(dimseq, cov[0][p]));
        }
        let node = best.unwrap();
        proof {
            let c = node.cut_point.unwrap() as int;
            let at = choose|i: int| 0 <= i < cov.len() && #[trigger] cov[i][p] == c;
            assert forall|i: int| 0 <= i < cov.len() implies split_reward(
                cov,
                rew,
                active,
                d,
                p,
                #[trigger] cov[i][p],
            ) <= node.reward by {
                assert(has_cut(dimseq, cov[i][p]));
                let c = choose|c: int|
                    0 <= c < dimseq.len() && (#[trigger] dimseq[c]).cut_point == cov[i][p];
                assert(dimseq[c].cut_point == cov[i][p]);
            }
            assert forall|i: int| 0 <= i < cov.len() && cov[i][p] < c implies split_reward(
                cov,
                rew,
                active,
                d,
                p,
                #[trigger] cov[i][p],
            ) < node.reward by {
                assert(has_cut(dimseq, cov[i][p]));
                let c = choose|c: int|
                    0 <= c < dimseq.len() && (#[trigger] dimseq[c]).cut_point == cov[i][p];
                assert(dimseq[c].cut_point == cov[i][p]);
            }
            lemma_dim_best_is(cov, rew, active, d, p, node.reward as int, at);
        }
        node
    }

    /// Searches the trees of `depth` levels covariate by covariate, one
    /// after the other, and keeps the first with the largest reward.
    fn search_dimensions_in_turn(&self, depth: usize) -> (node: Node)
        requires
            self.wf(),
            depth >= 1,
        ensures
            self.is_result(node, depth as nat),
        decreases depth, 2int,
    {
        let ghost cov = self.covariates@;
        let ghost rew = self.scores@;
        let ghost active = self.active@;
        let ghost n = active.len() as int;
        let ghost d = depth as nat;
        proof {
            self.lemma_tables();
        }
        let np: usize = self.sets.len();
        let mut best: Option<Node> = None;
        let ghost mut at: int = 0;
        let mut p: usize = 0;
        while p < np
            invariant
                p <= np,
                np == self.covariates.ncols,
                np == n_dims(cov),
                self.wf(),
                depth >= 1,
                d == depth,
                cov == self.covariates@,
                rew == self.scores@,
                active == self.active@,
                n == active.len(),
                n == cov.len(),
                p > 0 ==> best.is_some(),
                best.is_some() ==> {
                    let node = best.unwrap();
                    &&& node.describes(cov, rew, active, d)
                    &&& 0 <= at < np
                    &&& node.reward == best_in_dim(cov, rew, active, d, at, n)
                    &&& node.cut_axis == Some(at as usize)
                    &&& node.first_cut(cov, rew, active, d)
                    &&& forall|q: int|
                        0 <= q < at ==> #[trigger] best_in_dim(cov, rew, active, d, q, n)
                            < node.reward
                },
                forall|q: int|
                    0 <= q < p ==> #[trigger] best_in_dim(cov, rew, active, d, q, n)
                        <= best.unwrap().reward,
            decreases np - p,
        {
            let candidate = self.single_dimension_recursive_search(p, depth);
            let better: bool = match &best {
                None => true,
                Some(node) => candidate > *node,
            };
            if better {
                best = Some(candidate);
                proof {
                    at = p as int;
                }
            }
            p += 1;
        }
        let node = best.unwrap();
        proof {
            lemma_optimal_is(cov, rew, active, d, node.reward as int, at);
            lemma_earlier_dims_are_worse(cov, rew, active, d, at, node.reward as int);
        }
        node
    }

    /// The best tree with one split for the active observations. For every
    /// covariate the bundles are walked in ascending order; each is moved
    /// from the right totals to the left totals, and the best action on each
    /// side gives the reward of the cut. The first cut with the largest reward
    /// is kept.
    pub fn search_single_split(&self) -> (node: Node)
        requires
            self.wf(),
        ensures
            self.is_result(node, 1),
    {
        let ghost cov = self.covariates@;
        let ghost rew = self.scores@;
        let ghost active = self.active@;
        let ghost n = active.len() as int;
        let ghost k = n_actions(rew);
        proof {
            self.lemma_tables();
        }
        let sets = self.sets;
        let np: usize = sets.len();
        let rows: usize = self.active.len();
        let mut found: bool = false;
        let mut best_l_leaf: (usize, i128) = (0, 0);
        let mut best_r_leaf: (usize, i128) = (0, 0);
        let mut best_reward: i128 = 0;
        let mut best_axis: usize = 0;
        let mut best_cut_point: i64 = 0;
        let mut p: usize = 0;
        while p < np
            invariant
                p <= np,
                np == n_dims(cov),
                np == sets@.len(),
                sets == self.sets,
                self.wf(),
                cov == self.covariates@,
                rew == self.scores@,
                active == self.active@,
                n == active.len(),
                n == cov.len(),
                n == rows,
                k == n_actions(rew),
                found == (p > 0),
                found ==> best_axis < p && single_split_choice(
                    cov,
                    rew,
                    active,
                    best_axis as int,
                    best_cut_point as int,
                    best_l_leaf,
                    best_r_leaf,
                    best_reward as int,
                ),
                forall|q: int, i: int|
                    0 <= q < p && 0 <= i < n ==> split_reward(
                        cov,
                        rew,
                        active,
                        1,
                        q,
                        #[trigger] cov[i][q],
                    ) <= best_reward,
            decreases np - p,
        {
            let ghost dimseq = sets@[p as int]@;
            proof {
                assert(dim_wf(dimseq, cov, p as int));
                assert(has_cut(dimseq, cov[0][p as int]));
            }
            let n_bundles: usize = sets[p].len();
            let mut left = Self::new_empty(self.sets, self.covariates, self.scores);
            let mut right = self.fork();
            let ghost mut best_b: int = 0;
            let mut b: usize = 0;
            proof {
                assert(left.active@ =~= moved_before(cov, dimseq, active, p as int, 0));
                assert(right.active@ =~= kept_before(cov, dimseq, active, p as int, 0));
            }
            while b < n_bundles
                invariant
                    b <= n_bundles,
                    n_bundles == dimseq.len(),
                    n_bundles >= 1,
                    dimseq == sets@[p as int]@,
                    dim_wf(dimseq, cov, p as int),
                    p < np,
                    np == n_dims(cov),
                    np == sets@.len(),
                    sets == self.sets,
                    self.wf(),
                    cov == self.covariates@,
                    rew == self.scores@,
                    active == self.active@,
                    n == active.len(),
                    n == cov.len(),
                    n == rows,
                    k == n_actions(rew),
                    left.wf(),
                    right.wf(),
                    left.same_tables(self),
                    right.same_tables(self),
                    left.active@ == moved_before(cov, dimseq, active, p as int, b as int),
                    right.active@ == kept_before(cov, dimseq, active, p as int, b as int),
                    found == (p > 0 || b > 0),
                    found ==> best_axis <= p && single_split_choice(
                        cov,
                        rew,
                        active,
                        best_axis as int,
                        best_cut_point as int,
                        best_l_leaf,
                        best_r_leaf,
                        best_reward as int,
                    ),
                    found && best_axis == p ==> 0 <= best_b < b && dimseq[best_b].cut_point
                        == best_cut_point,
                    forall|q: int, i: int|
                        0 <= q < p && 0 <= i < n ==> split_reward(
                            cov,
                            rew,
                            active,
                            1,
                            q,
                            #[trigger] cov[i][q],
                        ) <= best_reward,
                    forall|c: int|
                        0 <= c < b ==> split_reward(
                            cov,
                            rew,
                            active,
                            1,
                            p as int,
                            (#[trigger] dimseq[c]).cut_point as int,
                        ) <= best_reward,
                decreases n_bundles - b,
            {
                let cut: i64 = sets[p][b].cut_point;
                let moved = Self::shift_bundle(left, right, p, b, Ghost(active));
                left = moved.0;
                right = moved.1;
                let current_l = left.best_action();
                let current_r = right.best_action();
                proof {
                    let lp = left_part(cov, active, p as int, cut as int);
                    let rp = right_part(cov, active, p as int, cut as int);
                    lemma_total_bound(rew, lp, current_l.0 as int, n);
                    lemma_total_bound(rew, rp, current_r.0 as int, n);
                    lemma_count_split(cov, active, p as int, cut as int, n);
                    assert(current_l.1 + current_r.1 == split_reward(
                        cov,
                        rew,
                        active,
                        1,
                        p as int,
                        cut as int,
                    ));
                    assert(bundle_holds(dimseq[b as int], cov, p as int));
                    let w = choose|m: usize| #[trigger] dimseq[b as int].members().contains(m);
                    assert(cov[w as int][p as int] == cut);
                    assert(is_cut_value(cov, p as int, cut as int));
                }
                let current_reward: i128 = current_l.1 + current_r.1;
                if !found || current_reward > best_reward {
                    proof {
                        assert forall|i: int|
                            0 <= i < n && cov[i][p as int] < cut implies split_reward(
                            cov,
                            rew,
                            active,
                            1,
                            p as int,
                            #[trigger] cov[i][p as int],
                        ) < current_reward by {
                            assert(has_cut(dimseq, cov[i][p as int]));
                            let c = choose|c: int|
                                0 <= c < dimseq.len() && (#[trigger] dimseq[c]).cut_point
                                    == cov[i][p as int];
                            if c >= b {
                                if c > b {
                                    assert(dimseq[b as int].cut_point < dimseq[c].cut_point);
                                }
                                assert(false);
                            }
                            assert(dimseq[c].cut_point == cov[i][p as int]);
                        }
                        best_b = b as int;
                    }
                    found = true;
                    best_axis = p;
                    best_cut_point = cut;
                    best_l_leaf = current_l;
                    best_r_leaf = current_r;
                    best_reward = current_reward;
                } else {
                    proof {
                        if best_axis == p {
                            assert(dimseq[best_b].cut_point < dimseq[b as int].cut_point);
                        }
                    }
                }
                b += 1;
                proof {
                    assert(left.active@ =~= moved_before(cov, dimseq, active, p as int, b as int));
                    assert(right.active@ =~= kept_before(cov, dimseq, active, p as int, b as int));
                }
            }
            proof {
                assert forall|q: int, i: int| 0 <= q < p + 1 && 0 <= i < n implies split_reward(
                    cov,
                    rew,
                    active,
                    1,
                    q,
                    #[trigger] cov[i][q],
                ) <= best_reward by {
                    if q == p {
                        assert(has_cut(dimseq, cov[i][q]));
                        let c = choose|c: int|
                            0 <= c < dimseq.len() && (#[trigger] dimseq[c]).cut_point == cov[i][q];
                        assert(dimseq[c].cut_point == cov[i][q]);
                    }
                }
            }
            p += 1;
        }
        let left_leaf = Node::new_leaf(best_l_leaf.1, best_l_leaf.0);
        let right_leaf = Node::new_leaf(best_r_leaf.1, best_r_leaf.0);
        let node = Node::new_branch(left_leaf, right_leaf, best_axis, best_cut_point);
        proof {
            let at = lemma_some_split_is_optimal(cov, rew, active, 1);
            let i = choose|i: int|
                0 <= i < cov.len() && #[trigger] cov[i][best_axis as int] == best_cut_point;
            lemma_split_is_no_better(cov, rew, active, 1, best_axis as int, i);
            assert(split_reward(cov, rew, active, 1, at.0, cov[at.1][at.0]) <= best_reward);
            assert(node.reward == optimal_reward(cov, rew, active, 1));
            let lp = left_part(cov, active, best_axis as int, best_cut_point as int);
            let rp = right_part(cov, active, best_axis as int, best_cut_point as int);
            assert(left_leaf.describes(cov, rew, lp, 0));
            assert(right_leaf.describes(cov, rew, rp, 0));
            assert(node.describes(cov, rew, active, 1));
            assert(left_leaf.first_choice(cov, rew, lp, 0));
            assert(right_leaf.first_choice(cov, rew, rp, 0));
            assert(node.first_cut(cov, rew, active, 1));
            assert(node.first_choice(cov, rew, active, 1));
        }
        node
    }

    /// Runs `single_dimension_recursive_search` once for each covariate on
    /// rayon's pool (`into_par_iter`, `map`, `collect`), which hands back the
    /// results in the order of the covariates.
    #[verifier::external_body]
    fn search_dimensions_in_parallel(&self, depth: usize) -> (r: Vec<Node>)
        requires
            self.wf(),
            depth >= 1,
        ensures
            r@.len() == self.covariates.ncols,
            forall|p: int|
                0 <= p < r@.len() ==> self.is_dimension_result(#[trigger] r@[p], p, depth as nat),
    {
        (0..self.sets.len()).into_par_iter().map(
            |dim| self.single_dimension_recursive_search(dim, depth),
        ).collect()
    }

    /// The first of `candidates` with the largest reward.
    fn take_best(candidates: Vec<Node>) -> (r: (Node, Ghost<int>))
        requires
            candidates@.len() >= 1,
        ensures
            0 <= r.1@ < candidates@.len(),
            r.0 == candidates@[r.1@],
            forall|q: int| 0 <= q < r.1@ ==> (#[trigger] candidates@[q]).reward < r.0.reward,
            forall|q: int|
                r.1@ <= q < candidates@.len() ==> (#[trigger] candidates@[q]).reward <= r.0.reward,
    {
        let mut candidates = candidates;
        let ghost all = candidates@;
        let mut at: usize = 0;
        let mut q: usize = 1;
        while q < candidates.len()
            invariant
                1 <= q <= all.len(),
                at < q,
                candidates@ == all,
                forall|t: int| 0 <= t < at ==> (#[trigger] all[t]).reward < all[at as int].reward,
                forall|t: int| at <= t < q ==> (#[trigger] all[t]).reward <= all[at as int].reward,
            decreases all.len() - q,
        {
            if candidates[q] > candidates[at] {
                at = q;
            }
            q += 1;
        }
        let node = candidates.swap_remove(at);
        (node, Ghost(at as int))
    }

    /// The best tree of `depth` levels for the active observations. With one
    /// level it is the best single split. With more, at the top of the search
    /// the covariates are searched in parallel, below it one after the other;
    /// the reward is the same.
    pub fn recursive_tree_search(&self, depth: usize, top: bool) -> (node: Node)
        requires
            self.wf(),
            depth >= 1,
        ensures
            self.is_result(node, depth as nat),
        decreases depth, 4int,
    {
        if depth == 1 {
            self.search_single_split()
        } else if top {
            proof {
                self.lemma_tables();
            }
            let candidates = self.search_dimensions_in_parallel(depth);
            let ghost all = candidates@;
            let picked = Self::take_best(candidates);
            proof {
                let ghost at = picked.1@;
                assert(self.is_dimension_result(all[at], at, depth as nat));
                assert forall|q: int|
                    0 <= q < n_dims(self.covariates@) implies #[trigger] best_in_dim(
                    self.covariates@,
                    self.scores@,
                    self.active@,
                    depth as nat,
                    q,
                    self.covariates@.len() as int,
                ) <= picked.0.reward by {
                    assert(self.is_dimension_result(all[q], q, depth as nat));
                }
                lemma_optimal_is(
                    self.covariates@,
                    self.scores@,
                    self.active@,
                    depth as nat,
                    picked.0.reward as int,
                    at,
                );
                assert forall|q: int| 0 <= q < at implies #[trigger] best_in_dim(
                    self.covariates@,
                    self.scores@,
                    self.active@,
                    depth as nat,
                    q,
                    self.covariates@.len() as int,
                ) < picked.0.reward by {
                    assert(self.is_dimension_result(all[q], q, depth as nat));
                }
                lemma_earlier_dims_are_worse(
                    self.covariates@,
                    self.scores@,
                    self.active@,
                    depth as nat,
                    at,
                    picked.0.reward as int,
                );
            }
            picked.0
        } else {
            self.search_dimensions_in_turn(depth)
        }
    }
}

} // verus!
