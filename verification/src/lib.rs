//! Exhaustive search for the depth-bounded decision tree that maximises the
//! total reward of routing observations to actions.
//!
//! Covariates and rewards are integers: a covariate enters the search only
//! through its order, a reward through sums and comparisons.
//!
//! `model` says what the optimal reward of a depth is, `node` what it means
//! for a tree to describe data, `policy` what a tree earns as a rule for
//! routing observations. `bundle_index` groups the observations by the values
//! of each covariate, `searcher` searches the trees, and `laws` holds what
//! follows for every input: deeper trees are no worse, the single split is
//! exhaustive, ties stay together, rewards add up, the order of the rows does
//! not matter, and the data determine the tree.

pub mod bundle_index;
pub mod laws;
pub mod lemmas;
pub mod matrix;
pub mod model;
pub mod node;
pub mod node_order;
pub mod observation_bundle;
pub mod policy;
pub mod searcher;

use crate::bundle_index::new_sorted_sets;
use crate::laws::lemma_described_tree_is_additive;
use crate::matrix::Matrix;
use crate::model::optimal_reward;
use crate::node::{complete_size, level_order, Node, NodeRecord};
use crate::searcher::TreeSearcher;
use vstd::prelude::*;

verus! {

/// Why a search was not started.
#[derive(Debug, Clone, Copy, PartialEq, Eq, Structural)]
pub enum SearchError {
    /// No observation, no covariate, no action, tables with different
    /// numbers of rows, or a depth below one.
    InvalidInput,
}

/// There is at least one observation, one covariate and one action, both
/// tables have a row for each observation, and the depth is at least one.
pub open spec fn valid_input(covariates: &Matrix, scores: &Matrix, depth: usize) -> bool {
    &&& covariates@.len() >= 1
    &&& covariates.ncols >= 1
    &&& scores.ncols >= 1
    &&& scores@.len() == covariates@.len()
    &&& depth >= 1
}

/// All of `n` observations.
pub open spec fn everyone(n: nat) -> Seq<bool> {
    Seq::new(n, |i: int| true)
}

/// The tree of `depth` levels of splits that reaches the largest total
/// reward over all observations, or `InvalidInput` without any search.
pub fn optimal_tree(covariates: &Matrix, scores: &Matrix, depth: usize) -> (r: Result<
    Node,
    SearchError,
>)
    requires
        covariates.wf(),
        scores.wf(),
    ensures
        r.is_ok() <==> valid_input(covariates, scores, depth),
        r.is_ok() ==> {
            let tree = r.unwrap();
            &&& tree.describes(covariates@, scores@, everyone(covariates@.len()), depth as nat)
            &&& tree.reward == optimal_reward(
                covariates@,
                scores@,
                everyone(covariates@.len()),
                depth as nat,
            )
            &&& tree.first_choice(covariates@, scores@, everyone(covariates@.len()), depth as nat)
            &&& tree.additive()
        },
{
    if depth < 1 || scores.ncols() == 0 || scores.nrows() != covariates.nrows() {
        return Err(SearchError::InvalidInput);
    }
    match new_sorted_sets(covariates) {
        None => Err(SearchError::InvalidInput),
        Some(sets) => {
            let searcher = TreeSearcher::new_full(&sets, covariates, scores);
            let tree = searcher.recursive_tree_search(depth, true);
            proof {
                lemma_described_tree_is_additive(
                    tree,
                    covariates@,
                    scores@,
                    everyone(covariates@.len()),
                    depth as nat,
                );
            }
            Ok(tree)
        },
    }
}

/// The optimal tree of `depth` levels as an array of records in
/// breadth-first order, or `InvalidInput` without any search.
pub fn exhaustive_tree(covariates: &Matrix, scores: &Matrix, depth: usize) -> (r: Result<
    Vec<NodeRecord>,
    SearchError,
>)
    requires
        covariates.wf(),
        scores.wf(),
        complete_size(depth as nat) < usize::MAX,
    ensures
        r.is_ok() <==> valid_input(covariates, scores, depth),
        r.is_ok() ==> r.unwrap()@.len() == complete_size(depth as nat),
        r.is_ok() ==> exists|tree: Node|
            {
                &&& #[trigger] tree.describes(
                    covariates@,
                    scores@,
                    everyone(covariates@.len()),
                    depth as nat,
                )
                &&& tree.reward == optimal_reward(
                    covariates@,
                    scores@,
                    everyone(covariates@.len()),
                    depth as nat,
                )
                &&& tree.first_choice(
                    covariates@,
                    scores@,
                    everyone(covariates@.len()),
                    depth as nat,
                )
                &&& r.unwrap()@ == level_order(seq![tree], 2, complete_size(depth as nat))
            },
{
    match optimal_tree(covariates, scores, depth) {
        Err(e) => Err(e),
        Ok(tree) => {
            proof {
                assert(covariates.rows@[0]@.len() == covariates.ncols);
                assert(scores.rows@[0]@.len() == scores.ncols);
                tree.lemma_described_tree_is_encodable(
                    covariates@,
                    scores@,
                    everyone(covariates@.len()),
                    depth as nat,
                );
            }
            Ok(tree.r_representation())
        },
    }
}

} // verus!
