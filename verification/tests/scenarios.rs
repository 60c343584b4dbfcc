use parallelpolicytree::matrix::Matrix;
use parallelpolicytree::node::{Node, NodeRecord, NodeType};
use parallelpolicytree::{exhaustive_tree, optimal_tree, SearchError};

fn table(rows: Vec<Vec<i64>>) -> Matrix {
    Matrix::from_rows(rows).unwrap()
}

fn four_by_two() -> (Matrix, Matrix) {
    let x = table(vec![vec![1], vec![2], vec![3], vec![4]]);
    let gamma = table(vec![vec![5, 0], vec![5, 0], vec![0, 5], vec![0, 5]]);
    (x, gamma)
}

fn alternating() -> (Matrix, Matrix) {
    let x = table(vec![vec![7, 1], vec![7, 2], vec![7, 3], vec![7, 4]]);
    let gamma = table(vec![vec![5, 0], vec![0, 5], vec![5, 0], vec![0, 5]]);
    (x, gamma)
}

fn assert_leaf(node: &Node, action: usize, reward: i128) {
    assert_eq!(node.node_type, NodeType::Leaf);
    assert_eq!(node.action, Some(action));
    assert_eq!(node.reward, reward);
    assert!(node.left_child.is_none());
    assert!(node.right_child.is_none());
    assert_eq!(node.cut_axis, None);
    assert_eq!(node.cut_point, None);
}

fn assert_branch(node: &Node, axis: usize, cut: i64, reward: i128) {
    assert_eq!(node.node_type, NodeType::Branch);
    assert_eq!(node.action, None);
    assert_eq!(node.cut_axis, Some(axis));
    assert_eq!(node.cut_point, Some(cut));
    assert_eq!(node.reward, reward);
}

#[test]
fn single_split_on_four_observations() {
    let (x, gamma) = four_by_two();
    let tree = optimal_tree(&x, &gamma, 1).unwrap();
    assert_branch(&tree, 0, 2, 20);
    assert_leaf(tree.left_child.as_ref().unwrap(), 0, 10);
    assert_leaf(tree.right_child.as_ref().unwrap(), 1, 10);
}

#[test]
fn depth_two_does_not_exceed_the_maximum() {
    let (x, gamma) = four_by_two();
    let tree = optimal_tree(&x, &gamma, 2).unwrap();
    assert_eq!(tree.reward, 20);
}

#[test]
fn depth_two_prefers_the_first_cut_that_is_best() {
    let (x, gamma) = four_by_two();
    let tree = optimal_tree(&x, &gamma, 2).unwrap();
    assert_branch(&tree, 0, 1, 20);
    let left = tree.left_child.as_ref().unwrap();
    let right = tree.right_child.as_ref().unwrap();
    assert_branch(left, 0, 1, 5);
    assert_leaf(left.left_child.as_ref().unwrap(), 0, 5);
    assert_leaf(left.right_child.as_ref().unwrap(), 0, 0);
    assert_branch(right, 0, 2, 15);
    assert_leaf(right.left_child.as_ref().unwrap(), 0, 5);
    assert_leaf(right.right_child.as_ref().unwrap(), 1, 10);
}

#[test]
fn records_of_a_single_split() {
    let (x, gamma) = four_by_two();
    let records = exhaustive_tree(&x, &gamma, 1).unwrap();
    assert_eq!(
        records,
        vec![
            NodeRecord::Split { split_variable: 1, split_value: 2, left_child: 2, right_child: 3 },
            NodeRecord::Leaf { action: 1 },
            NodeRecord::Leaf { action: 2 },
        ]
    );
}

#[test]
fn records_of_two_levels_are_breadth_first() {
    let (x, gamma) = four_by_two();
    let records = exhaustive_tree(&x, &gamma, 2).unwrap();
    assert_eq!(
        records,
        vec![
            NodeRecord::Split { split_variable: 1, split_value: 1, left_child: 2, right_child: 3 },
            NodeRecord::Split { split_variable: 1, split_value: 1, left_child: 4, right_child: 5 },
            NodeRecord::Split { split_variable: 1, split_value: 2, left_child: 6, right_child: 7 },
            NodeRecord::Leaf { action: 1 },
            NodeRecord::Leaf { action: 1 },
            NodeRecord::Leaf { action: 1 },
            NodeRecord::Leaf { action: 2 },
        ]
    );
}

#[test]
fn second_covariate_wins_at_depth_two() {
    let (x, gamma) = alternating();
    let shallow = optimal_tree(&x, &gamma, 1).unwrap();
    assert_branch(&shallow, 1, 1, 15);
    let tree = optimal_tree(&x, &gamma, 2).unwrap();
    assert_branch(&tree, 1, 2, 20);
    let left = tree.left_child.as_ref().unwrap();
    let right = tree.right_child.as_ref().unwrap();
    assert_branch(left, 1, 1, 10);
    assert_branch(right, 1, 3, 10);
    assert_leaf(left.left_child.as_ref().unwrap(), 0, 5);
    assert_leaf(left.right_child.as_ref().unwrap(), 1, 5);
    assert_leaf(right.left_child.as_ref().unwrap(), 0, 5);
    assert_leaf(right.right_child.as_ref().unwrap(), 1, 5);
}

#[test]
fn one_observation_one_action() {
    let x = table(vec![vec![3]]);
    let gamma = table(vec![vec![-4]]);
    let tree = optimal_tree(&x, &gamma, 1).unwrap();
    assert_branch(&tree, 0, 3, -4);
    assert_leaf(tree.left_child.as_ref().unwrap(), 0, -4);
    assert_leaf(tree.right_child.as_ref().unwrap(), 0, 0);
}

#[test]
fn all_values_tied_leave_one_cut() {
    let x = table(vec![vec![2], vec![2], vec![2]]);
    let gamma = table(vec![vec![1, 4], vec![3, 0], vec![1, 0]]);
    let tree = optimal_tree(&x, &gamma, 1).unwrap();
    assert_branch(&tree, 0, 2, 5);
    assert_leaf(tree.left_child.as_ref().unwrap(), 0, 5);
    assert_leaf(tree.right_child.as_ref().unwrap(), 0, 0);
}

#[test]
fn rewards_at_the_limits_do_not_overflow() {
    let x = table(vec![vec![1], vec![2]]);
    let gamma = table(vec![vec![i64::MAX, i64::MIN], vec![i64::MAX, i64::MIN]]);
    let tree = optimal_tree(&x, &gamma, 1).unwrap();
    assert_eq!(tree.reward, 2 * (i64::MAX as i128));
}

#[test]
fn empty_data_is_invalid() {
    let x = table(vec![]);
    let gamma = table(vec![]);
    assert_eq!(optimal_tree(&x, &gamma, 1).err(), Some(SearchError::InvalidInput));
    assert_eq!(exhaustive_tree(&x, &gamma, 1).err(), Some(SearchError::InvalidInput));
}

#[test]
fn no_covariate_is_invalid() {
    let x = table(vec![vec![], vec![]]);
    let gamma = table(vec![vec![1], vec![2]]);
    assert_eq!(optimal_tree(&x, &gamma, 1).err(), Some(SearchError::InvalidInput));
}

#[test]
fn no_action_is_invalid() {
    let x = table(vec![vec![1], vec![2]]);
    let gamma = table(vec![vec![], vec![]]);
    assert_eq!(optimal_tree(&x, &gamma, 1).err(), Some(SearchError::InvalidInput));
}

#[test]
fn different_row_counts_are_invalid() {
    let x = table(vec![vec![1], vec![2]]);
    let gamma = table(vec![vec![1], vec![2], vec![3]]);
    assert_eq!(optimal_tree(&x, &gamma, 1).err(), Some(SearchError::InvalidInput));
}

#[test]
fn depth_zero_is_invalid() {
    let (x, gamma) = four_by_two();
    assert_eq!(optimal_tree(&x, &gamma, 0).err(), Some(SearchError::InvalidInput));
    assert_eq!(exhaustive_tree(&x, &gamma, 0).err(), Some(SearchError::InvalidInput));
}
