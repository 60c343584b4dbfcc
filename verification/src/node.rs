use crate::model::{
    action_total, is_best_action, left_part, n_actions, n_dims, optimal_reward, right_part,
    split_reward,
};
use std::collections::VecDeque;
use vstd::prelude::*;

verus! {

#[derive(Debug, Clone, Copy, PartialEq, Eq, Structural)]
pub enum NodeType {
    Leaf,
    Branch,
}

/// A node of a decision tree, with the total reward that its subtree reaches.
///
/// A leaf assigns `action`. A branch sends an observation whose covariate
/// `cut_axis` is at most `cut_point` to `left_child`, any other to
/// `right_child`.
#[derive(Debug)]
pub struct Node {
    pub node_type: NodeType,
    pub reward: i128,
    pub action: Option<usize>,
    pub left_child: Option<Box<Node>>,
    pub right_child: Option<Box<Node>>,
    pub cut_axis: Option<usize>,
    pub cut_point: Option<i64>,
}

/// One node of a tree laid out as an array in breadth-first order. Positions,
/// actions and covariates count from 1; the root is at position 1.
#[derive(Debug, Clone, Copy, PartialEq, Eq, Structural)]
pub enum NodeRecord {
    Leaf { action: usize },
    Split { split_variable: usize, split_value: i64, left_child: usize, right_child: usize },
}

/// Number of nodes of the trees in `queue`.
pub open spec fn total_size(queue: Seq<Node>) -> nat
    decreases queue.len(),
{
    if queue.len() == 0 {
        0
    } else {
        queue[0].size() + total_size(queue.drop_first())
    }
}

/// The record of `node`, whose children, if any, go to the positions `next`
/// and `next + 1`.
pub open spec fn record_of(node: Node, next: int) -> NodeRecord {
    match (node.left_child, node.right_child) {
        (Some(l), Some(r)) => NodeRecord::Split {
            split_variable: (node.cut_axis.unwrap() + 1) as usize,
            split_value: node.cut_point.unwrap(),
            left_child: next as usize,
            right_child: (next + 1) as usize,
        },
        _ => NodeRecord::Leaf { action: (node.action.unwrap() + 1) as usize },
    }
}

/// The records of the trees in `queue` and of their descendants in
/// breadth-first order, as far as `fuel` nodes: the first tree's root, whose
/// children join the end of the queue and get the next two free positions,
/// then the rest in the same way.
pub open spec fn level_order(queue: Seq<Node>, next: int, fuel: nat) -> Seq<NodeRecord>
    decreases fuel,
{
    if fuel == 0 || queue.len() == 0 {
        Seq::empty()
    } else {
        let head = queue[0];
        let rest = queue.drop_first();
        match (head.left_child, head.right_child) {
            (Some(l), Some(r)) => seq![record_of(head, next)] + level_order(
                rest.push(*l).push(*r),
                next + 2,
                (fuel - 1) as nat,
            ),
            _ => seq![record_of(head, next)] + level_order(rest, next, (fuel - 1) as nat),
        }
    }
}

/// Number of nodes of the complete tree with `depth` levels of splits.
pub open spec fn complete_size(depth: nat) -> nat
    decreases depth,
{
    if depth == 0 {
        1
    } else {
        1 + 2 * complete_size((depth - 1) as nat)
    }
}

/// A deeper complete tree has more nodes.
pub proof fn lemma_complete_size_grows(shallow: nat, deep: nat)
    requires
        shallow <= deep,
    ensures
        1 <= complete_size(shallow) <= complete_size(deep),
    decreases deep,
{
    if shallow < deep {
        lemma_complete_size_grows(shallow, (deep - 1) as nat);
    } else if shallow > 0 {
        lemma_complete_size_grows((shallow - 1) as nat, (deep - 1) as nat);
    }
}

/// Whether the complete tree with `depth` levels of splits has fewer nodes
/// than the largest `usize`, so that its records can be numbered.
pub fn depth_fits(depth: usize) -> (fits: bool)
    ensures
        fits == (complete_size(depth as nat) < usize::MAX),
{
    let mut size: usize = 1;
    let mut d: usize = 0;
    while d < depth
        invariant
            d <= depth,
            size == complete_size(d as nat),
            size < usize::MAX,
        decreases depth - d,
    {
        if size >= (usize::MAX - 1) / 2 {
            proof {
                lemma_complete_size_grows((d + 1) as nat, depth as nat);
            }
            return false;
        }
        size = 1 + 2 * size;
        d += 1;
    }
    true
}

/// The trees that `queue` refers to.
pub open spec fn nodes_of(queue: Seq<&Node>) -> Seq<Node> {
    Seq::new(queue.len(), |i: int| *queue[i])
}

/// A queue with one more tree has that tree's nodes more.
pub proof fn lemma_total_size_push(queue: Seq<Node>, node: Node)
    ensures
        total_size(queue.push(node)) == total_size(queue) + node.size(),
        queue.len() <= total_size(queue),
    decreases queue.len(),
{
    if queue.len() == 0 {
        assert(queue.push(node).drop_first() =~= Seq::<Node>::empty());
        assert(queue.push(node)[0] == node);
        assert(total_size(Seq::<Node>::empty()) == 0);
        assert(total_size(queue) == 0);
    } else {
        lemma_total_size_push(queue.drop_first(), node);
        assert(queue.push(node).drop_first() =~= queue.drop_first().push(node));
        assert(queue.push(node)[0] == queue[0]);
        node.lemma_size_positive();
        queue[0].lemma_size_positive();
    }
}

/// `c` is the value of covariate `p` for some observation.
pub open spec fn is_cut_value(cov: Seq<Seq<int>>, p: int, c: int) -> bool {
    exists|i: int| 0 <= i < cov.len() && #[trigger] cov[i][p] == c
}

impl Node {
    /// The node is a leaf with an action and nothing else.
    pub open spec fn is_leaf(&self) -> bool {
        &&& self.node_type == NodeType::Leaf
        &&& self.action.is_some()
        &&& self.left_child.is_none()
        &&& self.right_child.is_none()
        &&& self.cut_axis.is_none()
        &&& self.cut_point.is_none()
    }

    /// The node is a branch with two children, an axis and a cut.
    pub open spec fn is_branch(&self) -> bool {
        &&& self.node_type == NodeType::Branch
        &&& self.action.is_none()
        &&& self.left_child.is_some()
        &&& self.right_child.is_some()
        &&& self.cut_axis.is_some()
        &&& self.cut_point.is_some()
    }

    /// The reward of every branch is the sum of its children's rewards.
    pub open spec fn additive(&self) -> bool
        decreases self,
    {
        match (self.left_child, self.right_child) {
            (Some(l), Some(r)) => self.reward == l.reward + r.reward && l.additive()
                && r.additive(),
            _ => true,
        }
    }

    /// Number of nodes of the tree.
    pub open spec fn size(&self) -> nat
        decreases self,
    {
        match (self.left_child, self.right_child) {
            (Some(l), Some(r)) => 1 + l.size() + r.size(),
            _ => 1,
        }
    }

    /// The tree is the complete tree of `depth` levels of splits for the active
    /// observations: every branch cuts at a value found in the data and adds
    /// up its children, which describe the two parts of its observations,
    /// and every leaf has the best action of the observations that reach
    /// it, with their total reward for that action.
    pub open spec fn describes(
        &self,
        cov: Seq<Seq<int>>,
        rew: Seq<Seq<int>>,
        active: Seq<bool>,
        depth: nat,
    ) -> bool
        decreases self,
    {
        match (self.left_child, self.right_child) {
            (Some(l), Some(r)) => {
                let p = self.cut_axis.unwrap() as int;
                let c = self.cut_point.unwrap() as int;
                &&& self.is_branch()
                &&& depth > 0
                &&& 0 <= p < n_dims(cov)
                &&& is_cut_value(cov, p, c)
                &&& self.reward == l.reward + r.reward
                &&& l.describes(cov, rew, left_part(cov, active, p, c), (depth - 1) as nat)
                &&& r.describes(cov, rew, right_part(cov, active, p, c), (depth - 1) as nat)
            },
            _ => {
                &&& self.is_leaf()
                &&& depth == 0
                &&& is_best_action(rew, active, n_actions(rew), self.action.unwrap() as int)
                &&& self.reward == action_total(
                    rew,
                    active,
                    self.action.unwrap() as int,
                    active.len() as int,
                )
            },
        }
    }

    /// No lower cut of the root's covariate reaches the root's reward, and
    /// both children are the trees that the search prefers.
    pub open spec fn first_cut(
        &self,
        cov: Seq<Seq<int>>,
        rew: Seq<Seq<int>>,
        active: Seq<bool>,
        depth: nat,
    ) -> bool
        decreases self, 0int,
    {
        match (self.left_child, self.right_child) {
            (Some(l), Some(r)) => {
                let p = self.cut_axis.unwrap() as int;
                let c = self.cut_point.unwrap() as int;
                &&& forall|i: int|
                    0 <= i < cov.len() && cov[i][p] < c ==> split_reward(
                        cov,
                        rew,
                        active,
                        depth,
                        p,
                        #[trigger] cov[i][p],
                    ) < self.reward
                &&& l.first_choice(cov, rew, left_part(cov, active, p, c), (depth - 1) as nat)
                &&& r.first_choice(cov, rew, right_part(cov, active, p, c), (depth - 1) as nat)
            },
            _ => true,
        }
    }

    /// Among the trees with the optimal reward this is the one that the
    /// search prefers: at every branch, no covariate before the branch's own
    /// and no lower cut of its own reaches the reward of the branch, which is
    /// optimal for the observations that reach it.
    pub open spec fn first_choice(
        &self,
        cov: Seq<Seq<int>>,
        rew: Seq<Seq<int>>,
        active: Seq<bool>,
        depth: nat,
    ) -> bool
        decreases self, 1int,
    {
        match (self.left_child, self.right_child) {
            (Some(l), Some(r)) => {
                let p = self.cut_axis.unwrap() as int;
                &&& self.reward == optimal_reward(cov, rew, active, depth)
                &&& forall|q: int, i: int|
                    0 <= q < p && 0 <= i < cov.len() ==> split_reward(
                        cov,
                        rew,
                        active,
                        depth,
                        q,
                        #[trigger] cov[i][q],
                    ) < self.reward
                &&& self.first_cut(cov, rew, active, depth)
            },
            _ => true,
        }
    }

    /// Two active observations `i` and `j` with the same value of the
    /// covariate that a branch splits on are on the same side of that
    /// branch, at every branch of the tree.
    pub open spec fn keeps_ties(
        &self,
        cov: Seq<Seq<int>>,
        active: Seq<bool>,
        i: int,
        j: int,
    ) -> bool
        decreases self,
    {
        match (self.left_child, self.right_child) {
            (Some(l), Some(r)) => {
                let p = self.cut_axis.unwrap() as int;
                let c = self.cut_point.unwrap() as int;
                let left = left_part(cov, active, p, c);
                let right = right_part(cov, active, p, c);
                &&& active[i] && active[j] && cov[i][p] == cov[j][p] ==> left[i] == left[j]
                    && right[i] == right[j] && left[i] != right[i]
                &&& l.keeps_ties(cov, left, i, j)
                &&& r.keeps_ties(cov, right, i, j)
            },
            _ => true,
        }
    }

    /// A tree has at least one node.
    pub proof fn lemma_size_positive(&self)
        ensures
            self.size() >= 1,
    {
    }

    /// Every node is a leaf or a branch, and its action or covariate can be
    /// counted from 1.
    pub open spec fn encodable(&self) -> bool
        decreases self,
    {
        match (self.left_child, self.right_child) {
            (Some(l), Some(r)) => self.is_branch() && self.cut_axis.unwrap() < usize::MAX
                && l.encodable() && r.encodable(),
            _ => self.is_leaf() && self.action.unwrap() < usize::MAX,
        }
    }

    /// A tree that describes data is complete, and its actions and covariates
    /// can be counted from 1.
    pub proof fn lemma_described_tree_is_encodable(
        &self,
        cov: Seq<Seq<int>>,
        rew: Seq<Seq<int>>,
        active: Seq<bool>,
        depth: nat,
    )
        requires
            self.describes(cov, rew, active, depth),
            n_dims(cov) <= usize::MAX,
            n_actions(rew) <= usize::MAX,
        ensures
            self.encodable(),
            self.size() == complete_size(depth),
        decreases self,
    {
        match (self.left_child, self.right_child) {
            (Some(l), Some(r)) => {
                let p = self.cut_axis.unwrap() as int;
                let c = self.cut_point.unwrap() as int;
                l.lemma_described_tree_is_encodable(
                    cov,
                    rew,
                    left_part(cov, active, p, c),
                    (depth - 1) as nat,
                );
                r.lemma_described_tree_is_encodable(
                    cov,
                    rew,
                    right_part(cov, active, p, c),
                    (depth - 1) as nat,
                );
            },
            _ => {},
        }
    }

    /// The tree as an array of records in breadth-first order, the root
    /// first. A branch's record names the positions of its two children,
    /// which follow it in the array.
    pub fn r_representation(&self) -> (records: Vec<NodeRecord>)
        requires
            self.encodable(),
            self.size() < usize::MAX,
        ensures
            records@ == level_order(seq![*self], 2, self.size()),
            records@.len() == self.size(),
    {
        let ghost target = level_order(seq![*self], 2, self.size());
        let mut queue: VecDeque<&Node> = VecDeque::new();
        queue.push_back(self);
        let mut output: Vec<NodeRecord> = Vec::new();
        let mut next_available: usize = 2;
        proof {
            assert(nodes_of(queue@) =~= seq![*self]);
            assert(seq![*self] =~= Seq::<Node>::empty().push(*self));
            lemma_total_size_push(Seq::<Node>::empty(), *self);
            assert(total_size(Seq::<Node>::empty()) == 0);
            assert(Seq::<NodeRecord>::empty() + target =~= target);
        }
        while queue.len() != 0
            invariant
                forall|i: int| 0 <= i < queue@.len() ==> (#[trigger] queue@[i]).encodable(),
                output@ + level_order(
                    nodes_of(queue@),
                    next_available as int,
                    total_size(nodes_of(queue@)),
                ) == target,
                next_available == output@.len() + queue@.len() + 1,
                output@.len() + total_size(nodes_of(queue@)) == self.size(),
                queue@.len() <= total_size(nodes_of(queue@)),
                self.size() < usize::MAX,
            decreases total_size(nodes_of(queue@)),
        {
            let ghost pending = nodes_of(queue@);
            let ghost before = output@;
            let current: &Node = queue.pop_front().unwrap();
            let ghost rest = nodes_of(queue@);
            proof {
                assert(pending[0] == *current);
                current.lemma_size_positive();
                assert(rest =~= pending.drop_first());
                lemma_total_size_push(rest, *current);
            }
            match (&current.left_child, &current.right_child) {
                (Some(left_child), Some(right_child)) => {
                    proof {
                        lemma_total_size_push(rest, **left_child);
                        lemma_total_size_push(rest.push(**left_child), **right_child);
                        lemma_total_size_push(
                            rest.push(**left_child).push(**right_child),
                            *current,
                        );
                    }
                    queue.push_back(&**left_child);
                    queue.push_back(&**right_child);
                    output.push(
                        NodeRecord::Split {
                            split_variable: current.cut_axis.unwrap() + 1,
                            split_value: current.cut_point.unwrap(),
                            left_child: next_available,
                            right_child: next_available + 1,
                        },
                    );
                    next_available += 2;
                    proof {
                        let after = nodes_of(queue@);
                        assert(after =~= rest.push(**left_child).push(**right_child));
                        let next = next_available as int;
                        assert(output@ + level_order(after, next, total_size(after)) =~= before
                            + level_order(
                            pending,
                            next_available - 2,
                            total_size(pending),
                        ));
                    }
                },
                _ => {
                    output.push(NodeRecord::Leaf { action: current.action.unwrap() + 1 });
                    proof {
                        assert(output@ + level_order(rest, next_available as int, total_size(rest))
                            =~= before + level_order(
                            pending,
                            next_available as int,
                            total_size(pending),
                        ));
                    }
                },
            }
        }
        proof {
            assert(nodes_of(queue@) =~= Seq::<Node>::empty());
            assert(total_size(nodes_of(queue@)) == 0);
            assert(output@ + Seq::<NodeRecord>::empty() =~= output@);
        }
        output
    }

    /// A leaf that assigns `action` and reaches `reward`.
    pub fn new_leaf(reward: i128, action: usize) -> (node: Node)
        ensures
            node.is_leaf(),
            node.reward == reward,
            node.action == Some(action),
            node.additive(),
            node.size() == 1,
    {
        Node {
            node_type: NodeType::Leaf,
            action: Some(action),
            reward,
            left_child: None,
            right_child: None,
            cut_axis: None,
            cut_point: None,
        }
    }

    /// A branch over two subtrees; its reward is the sum of theirs.
    pub fn new_branch(left_child: Node, right_child: Node, axis: usize, cut_point: i64) -> (node:
        Node)
        requires
            i128::MIN <= left_child.reward + right_child.reward <= i128::MAX,
        ensures
            node.is_branch(),
            node.reward == left_child.reward + right_child.reward,
            node.left_child == Some(Box::new(left_child)),
            node.right_child == Some(Box::new(right_child)),
            node.cut_axis == Some(axis),
            node.cut_point == Some(cut_point),
            left_child.additive() && right_child.additive() ==> node.additive(),
            node.size() == 1 + left_child.size() + right_child.size(),
    {
        Node {
            node_type: NodeType::Branch,
            action: None,
            reward: left_child.reward + right_child.reward,
            left_child: Some(Box::new(left_child)),
            right_child: Some(Box::new(right_child)),
            cut_axis: Some(axis),
            cut_point: Some(cut_point),
        }
    }
}

impl Clone for Node {
    /// A copy of the whole tree.
    fn clone(&self) -> (copy: Node)
        ensures
            copy == *self,
        decreases self,
    {
        let left_child = match &self.left_child {
            Some(child) => Some(Box::new((**child).clone())),
            None => None,
        };
        let right_child = match &self.right_child {
            Some(child) => Some(Box::new((**child).clone())),
            None => None,
        };
        Node {
            node_type: self.node_type,
            reward: self.reward,
            action: self.action,
            left_child,
            right_child,
            cut_axis: self.cut_axis,
            cut_point: self.cut_point,
        }
    }
}

} // verus!
