use parallelpolicytree::bundle_index::new_sorted_sets;
use parallelpolicytree::matrix::Matrix;
use parallelpolicytree::node::{Node, NodeType};
use parallelpolicytree::optimal_tree;
use parallelpolicytree::searcher::TreeSearcher;

fn covariates() -> Vec<Vec<i64>> {
    vec![
        vec![3, 10],
        vec![1, 20],
        vec![3, 30],
        vec![2, 10],
        vec![5, 40],
        vec![1, 20],
        vec![4, 10],
    ]
}

fn rewards() -> Vec<Vec<i64>> {
    vec![
        vec![4, -1, 0],
        vec![0, 6, 1],
        vec![-2, 3, 3],
        vec![7, 0, 2],
        vec![1, 1, 9],
        vec![0, 5, -3],
        vec![2, 2, 8],
    ]
}

fn table(rows: Vec<Vec<i64>>) -> Matrix {
    Matrix::from_rows(rows).unwrap()
}

/// Largest column sum of the rewards of the chosen rows.
fn best_sum(rewards: &[Vec<i64>], chosen: &[usize]) -> i128 {
    let k = rewards[0].len();
    let mut best: Option<i128> = None;
    for a in 0..k {
        let mut sum: i128 = 0;
        for i in chosen {
            sum += rewards[*i][a] as i128;
        }
        if best.map_or(true, |b| sum > b) {
            best = Some(sum);
        }
    }
    best.unwrap()
}

/// Optimal reward by trying every covariate and every value as a cut.
fn brute_force(cov: &[Vec<i64>], rewards: &[Vec<i64>], chosen: &[usize], depth: usize) -> i128 {
    if depth == 0 {
        return best_sum(rewards, chosen);
    }
    let mut best: Option<i128> = None;
    for p in 0..cov[0].len() {
        for row in cov {
            let cut = row[p];
            let left: Vec<usize> = chosen.iter().copied().filter(|i| cov[*i][p] <= cut).collect();
            let right: Vec<usize> = chosen.iter().copied().filter(|i| cov[*i][p] > cut).collect();
            let total = brute_force(cov, rewards, &left, depth - 1)
                + brute_force(cov, rewards, &right, depth - 1);
            if best.map_or(true, |b| total > b) {
                best = Some(total);
            }
        }
    }
    best.unwrap()
}

fn everyone(n: usize) -> Vec<usize> {
    (0..n).collect()
}

/// The reward that the tree's rule earns on the rows, each routed by its
/// own covariates.
fn routed_reward(tree: &Node, cov: &[Vec<i64>], rewards: &[Vec<i64>]) -> i128 {
    let mut total: i128 = 0;
    for i in 0..cov.len() {
        let mut node = tree;
        while node.node_type == NodeType::Branch {
            let axis = node.cut_axis.unwrap();
            let cut = node.cut_point.unwrap();
            node = if cov[i][axis] <= cut {
                node.left_child.as_ref().unwrap()
            } else {
                node.right_child.as_ref().unwrap()
            };
        }
        total += rewards[i][node.action.unwrap()] as i128;
    }
    total
}

fn check_additive(node: &Node) {
    if node.node_type == NodeType::Branch {
        let left = node.left_child.as_ref().unwrap();
        let right = node.right_child.as_ref().unwrap();
        assert_eq!(node.reward, left.reward + right.reward);
        check_additive(left);
        check_additive(right);
    }
}

#[test]
fn single_split_matches_brute_force() {
    let cov = covariates();
    let rew = rewards();
    let x = table(cov.clone());
    let gamma = table(rew.clone());
    let sets = new_sorted_sets(&x).unwrap();
    let searcher = TreeSearcher::new_full(&sets, &x, &gamma);
    let tree = searcher.search_single_split();
    assert_eq!(tree.reward, brute_force(&cov, &rew, &everyone(cov.len()), 1));
    assert_eq!(tree.reward, 33);
    assert_eq!(tree.cut_axis, Some(0));
    assert_eq!(tree.cut_point, Some(1));
}

#[test]
fn deeper_trees_match_brute_force() {
    let cov = covariates();
    let rew = rewards();
    let x = table(cov.clone());
    let gamma = table(rew.clone());
    for depth in 1..4 {
        let tree = optimal_tree(&x, &gamma, depth).unwrap();
        assert_eq!(tree.reward, brute_force(&cov, &rew, &everyone(cov.len()), depth));
    }
}

#[test]
fn reward_does_not_fall_with_depth() {
    let x = table(covariates());
    let gamma = table(rewards());
    let one = optimal_tree(&x, &gamma, 1).unwrap().reward;
    let two = optimal_tree(&x, &gamma, 2).unwrap().reward;
    let three = optimal_tree(&x, &gamma, 3).unwrap().reward;
    assert!(one <= two);
    assert!(two <= three);
    assert_eq!(three, 42);
}

#[test]
fn tied_observations_are_routed_together() {
    let cov = covariates();
    let rew = rewards();
    let x = table(cov.clone());
    let gamma = table(rew.clone());
    for depth in 1..4 {
        let tree = optimal_tree(&x, &gamma, depth).unwrap();
        assert_eq!(tree.reward, routed_reward(&tree, &cov, &rew));
    }
}

#[test]
fn branch_rewards_add_up() {
    let x = table(covariates());
    let gamma = table(rewards());
    for depth in 1..4 {
        check_additive(&optimal_tree(&x, &gamma, depth).unwrap());
    }
}

#[test]
fn row_order_does_not_change_the_reward() {
    let cov = covariates();
    let rew = rewards();
    let order = [4usize, 0, 6, 2, 5, 1, 3];
    let cov2: Vec<Vec<i64>> = order.iter().map(|i| cov[*i].clone()).collect();
    let rew2: Vec<Vec<i64>> = order.iter().map(|i| rew[*i].clone()).collect();
    for depth in 1..4 {
        let a = optimal_tree(&table(cov.clone()), &table(rew.clone()), depth).unwrap();
        let b = optimal_tree(&table(cov2.clone()), &table(rew2.clone()), depth).unwrap();
        assert_eq!(a.reward, b.reward);
    }
}

#[test]
fn parallel_and_sequential_search_agree() {
    let x = table(covariates());
    let gamma = table(rewards());
    let sets = new_sorted_sets(&x).unwrap();
    let searcher = TreeSearcher::new_full(&sets, &x, &gamma);
    for depth in 1..4 {
        let top = searcher.recursive_tree_search(depth, true);
        let inner = searcher.recursive_tree_search(depth, false);
        assert_eq!(top.reward, inner.reward);
        assert_eq!(top.cut_axis, inner.cut_axis);
        assert_eq!(top.cut_point, inner.cut_point);
    }
}

#[test]
fn one_dimension_at_a_time() {
    let x = table(covariates());
    let gamma = table(rewards());
    let sets = new_sorted_sets(&x).unwrap();
    let searcher = TreeSearcher::new_full(&sets, &x, &gamma);
    let first = searcher.single_dimension_recursive_search(0, 1);
    let second = searcher.single_dimension_recursive_search(1, 1);
    assert_eq!(first.cut_axis, Some(0));
    assert_eq!(second.cut_axis, Some(1));
    let best = searcher.search_single_split();
    assert_eq!(best.reward, first.reward.max(second.reward));
}
