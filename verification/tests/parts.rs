use parallelpolicytree::bundle_index::new_sorted_sets;
use parallelpolicytree::matrix::Matrix;
use parallelpolicytree::node::{depth_fits, Node, NodeRecord, NodeType};
use parallelpolicytree::observation_bundle::ObservationBundle;
use parallelpolicytree::searcher::TreeSearcher;
use std::collections::HashSet;

fn set(items: &[usize]) -> HashSet<usize> {
    items.iter().copied().collect()
}

fn table(rows: Vec<Vec<i64>>) -> Matrix {
    Matrix::from_rows(rows).unwrap()
}

#[test]
fn matrix_from_rows() {
    let m = table(vec![vec![1, 2, 3], vec![4, 5, 6]]);
    assert_eq!(m.nrows(), 2);
    assert_eq!(m.ncols(), 3);
    assert_eq!(m.get(1, 2), 6);
    assert_eq!(m.get(0, 0), 1);
    let empty = table(vec![]);
    assert_eq!(empty.nrows(), 0);
    assert_eq!(empty.ncols(), 0);
}

#[test]
fn matrix_with_ragged_rows_is_refused() {
    assert!(Matrix::from_rows(vec![vec![1, 2], vec![3]]).is_none());
    assert!(Matrix::from_rows(vec![vec![], vec![3]]).is_none());
}

#[test]
fn bundle_new_add_remove() {
    let mut b = ObservationBundle::new(9, 4);
    assert_eq!(b.cut_point, 9);
    assert_eq!(b.indexes, set(&[4]));
    b.add(7);
    b.add(1);
    b.add(4);
    assert_eq!(b.indexes, set(&[1, 4, 7]));
    b.remove(4);
    assert_eq!(b.indexes, set(&[1, 7]));
    b.remove(4);
    assert_eq!(b.indexes, set(&[1, 7]));
    b.remove(1);
    b.remove(7);
    assert!(b.indexes.is_empty());
    assert_eq!(b.cut_point, 9);
}

#[test]
fn sorted_sets_group_equal_values_in_ascending_order() {
    let x = table(vec![vec![3, -1], vec![1, -1], vec![3, 5], vec![2, -1]]);
    let sets = new_sorted_sets(&x).unwrap();
    assert_eq!(sets.len(), 2);
    let cuts: Vec<i64> = sets[0].iter().map(|b| b.cut_point).collect();
    assert_eq!(cuts, vec![1, 2, 3]);
    assert_eq!(sets[0][0].indexes, set(&[1]));
    assert_eq!(sets[0][1].indexes, set(&[3]));
    assert_eq!(sets[0][2].indexes, set(&[0, 2]));
    let cuts: Vec<i64> = sets[1].iter().map(|b| b.cut_point).collect();
    assert_eq!(cuts, vec![-1, 5]);
    assert_eq!(sets[1][0].indexes, set(&[0, 1, 3]));
    assert_eq!(sets[1][1].indexes, set(&[2]));
}

#[test]
fn sorted_sets_need_rows_and_columns() {
    assert!(new_sorted_sets(&table(vec![])).is_none());
    assert!(new_sorted_sets(&table(vec![vec![], vec![]])).is_none());
}

#[test]
fn searcher_totals_follow_add_and_remove() {
    let x = table(vec![vec![1], vec![2], vec![3]]);
    let gamma = table(vec![vec![1, 10], vec![2, 20], vec![30, 3]]);
    let sets = new_sorted_sets(&x).unwrap();
    let full = TreeSearcher::new_full(&sets, &x, &gamma);
    assert_eq!(full.active, vec![true, true, true]);
    assert_eq!(full.max_treatment_utils, vec![33, 33]);
    assert_eq!(full.best_action(), (0, 33));
    let mut s = TreeSearcher::new_empty(&sets, &x, &gamma);
    assert_eq!(s.active, vec![false, false, false]);
    assert_eq!(s.max_treatment_utils, vec![0, 0]);
    assert_eq!(s.best_action(), (0, 0));
    s.add(1);
    assert_eq!(s.max_treatment_utils, vec![2, 20]);
    assert_eq!(s.best_action(), (1, 20));
    s.add(2);
    assert_eq!(s.active, vec![false, true, true]);
    assert_eq!(s.max_treatment_utils, vec![32, 23]);
    assert_eq!(s.best_action(), (0, 32));
    let mut t = s.fork();
    t.remove(2);
    assert_eq!(t.max_treatment_utils, vec![2, 20]);
    assert_eq!(t.active, vec![false, true, false]);
    assert_eq!(s.max_treatment_utils, vec![32, 23]);
}

#[test]
fn best_action_is_the_first_of_the_largest() {
    let x = table(vec![vec![1]]);
    let gamma = table(vec![vec![2, 7, 7, 1]]);
    let sets = new_sorted_sets(&x).unwrap();
    let s = TreeSearcher::new_full(&sets, &x, &gamma);
    assert_eq!(s.best_action(), (1, 7));
}

#[test]
fn leaf_and_branch() {
    let l = Node::new_leaf(3, 1);
    assert_eq!(l.node_type, NodeType::Leaf);
    assert_eq!(l.reward, 3);
    assert_eq!(l.action, Some(1));
    let r = Node::new_leaf(-5, 0);
    let b = Node::new_branch(l, r, 2, 11);
    assert_eq!(b.node_type, NodeType::Branch);
    assert_eq!(b.reward, -2);
    assert_eq!(b.action, None);
    assert_eq!(b.cut_axis, Some(2));
    assert_eq!(b.cut_point, Some(11));
    assert_eq!(b.left_child.as_ref().unwrap().reward, 3);
    assert_eq!(b.right_child.as_ref().unwrap().reward, -5);
}

#[test]
fn nodes_compare_by_reward_alone() {
    let a = Node::new_leaf(4, 0);
    let b = Node::new_branch(Node::new_leaf(1, 1), Node::new_leaf(3, 2), 0, 5);
    let c = Node::new_leaf(9, 0);
    assert!(a == b);
    assert!(a < c);
    assert!(c > b);
    assert!(!(a < b));
    assert_eq!(a.partial_cmp(&c), Some(std::cmp::Ordering::Less));
    assert_eq!(a.partial_cmp(&b), Some(std::cmp::Ordering::Equal));
}

#[test]
fn records_of_an_uneven_tree() {
    let deep = Node::new_branch(Node::new_leaf(1, 0), Node::new_leaf(2, 1), 1, -3);
    let tree = Node::new_branch(Node::new_leaf(5, 2), deep, 0, 8);
    assert_eq!(
        tree.r_representation(),
        vec![
            NodeRecord::Split { split_variable: 1, split_value: 8, left_child: 2, right_child: 3 },
            NodeRecord::Leaf { action: 3 },
            NodeRecord::Split { split_variable: 2, split_value: -3, left_child: 4, right_child: 5 },
            NodeRecord::Leaf { action: 1 },
            NodeRecord::Leaf { action: 2 },
        ]
    );
    assert_eq!(Node::new_leaf(0, 6).r_representation(), vec![NodeRecord::Leaf { action: 7 }]);
}

#[test]
fn depths_that_fit() {
    assert!(depth_fits(0));
    assert!(depth_fits(1));
    assert!(depth_fits(20));
    assert!(!depth_fits(64));
    assert!(!depth_fits(usize::MAX));
}

#[test]
fn copies_are_whole() {
    let deep = Node::new_branch(Node::new_leaf(1, 0), Node::new_leaf(2, 1), 1, -3);
    let tree = Node::new_branch(Node::new_leaf(5, 2), deep, 0, 8);
    let copy = tree.clone();
    assert_eq!(copy.r_representation(), tree.r_representation());
    assert_eq!(copy.reward, 8);
    assert_eq!(copy.right_child.as_ref().unwrap().left_child.as_ref().unwrap().reward, 1);
    let mut b = ObservationBundle::new(-2, 3);
    b.add(5);
    let mut c = b.clone();
    c.remove(3);
    assert_eq!(b.indexes, set(&[3, 5]));
    assert_eq!(c.indexes, set(&[5]));
    assert_eq!(c.cut_point, -2);
}
