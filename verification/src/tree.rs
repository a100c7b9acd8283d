//! The trained decision tree and its prediction walk.

use vstd::prelude::*;

verus! {

/// A node of the trained tree: a leaf carrying the predicted class, or an
/// internal node routing rows by one feature against a threshold.
#[derive(Debug, PartialEq, Eq)]
pub enum TreeNode {
    Leaf { label: u64 },
    Split { feature: usize, threshold: i64, left: Box<TreeNode>, right: Box<TreeNode> },
}

impl TreeNode {
    /// Every split tests a feature index below `m`.
    pub open spec fn feat_wf(self, m: int) -> bool
        decreases self,
    {
        match self {
            TreeNode::Leaf { .. } => true,
            TreeNode::Split { feature, threshold, left, right } => {
                &&& feature < m
                &&& left.feat_wf(m)
                &&& right.feat_wf(m)
            },
        }
    }

    /// The label the tree gives a feature row: walk from the root, going
    /// left where the tested feature is at most the threshold, right
    /// otherwise, until a leaf answers.
    pub open spec fn predict_spec(self, row: Seq<i64>) -> u64
        decreases self,
    {
        match self {
            TreeNode::Leaf { label } => label,
            TreeNode::Split { feature, threshold, left, right } => {
                if row[feature as int] <= threshold {
                    left.predict_spec(row)
                } else {
                    right.predict_spec(row)
                }
            },
        }
    }
}

fn predict_node(node: &TreeNode, row: &Vec<i64>, Ghost(m): Ghost<int>) -> (r: u64)
    requires
        node.feat_wf(m),
        row@.len() == m,
    ensures
        r == node.predict_spec(row@),
    decreases *node,
{
    match node {
        TreeNode::Leaf { label } => *label,
        TreeNode::Split { feature, threshold, left, right } => {
            if row[*feature] <= *threshold {
                predict_node(&**left, row, Ghost(m))
            } else {
                predict_node(&**right, row, Ghost(m))
            }
        },
    }
}

/// The trained classifier: the root node plus the feature count its splits
/// index into. Immutable once built; prediction only reads it.
#[derive(Debug, PartialEq, Eq)]
pub struct TreeClassifier {
    pub root: TreeNode,
    pub n_features: usize,
}

impl TreeClassifier {
    /// Every split of the tree tests one of the dataset's features.
    pub open spec fn wf(self) -> bool {
        self.root.feat_wf(self.n_features as int)
    }

    /// Predicts the class of one feature row.
    pub fn predict(&self, row: &Vec<i64>) -> (r: u64)
        requires
            self.wf(),
            row@.len() == self.n_features,
        ensures
            r == self.root.predict_spec(row@),
    {
        predict_node(&self.root, row, Ghost(self.n_features as int))
    }

    /// Predicts one class per feature row, in the rows' order.
    pub fn predict_batch(&self, rows: &Vec<Vec<i64>>) -> (r: Vec<u64>)
        requires
            self.wf(),
            forall|i: int| 0 <= i < rows@.len() ==> (#[trigger] rows@[i])@.len() == self.n_features,
        ensures
            r@.len() == rows@.len(),
            forall|i: int|
                0 <= i < rows@.len() ==> r@[i] == self.root.predict_spec(#[trigger] rows@[i]@),
    {
        let mut out: Vec<u64> = Vec::new();
        let mut i: usize = 0;
        while i < rows.len()
            invariant
                self.wf(),
                forall|q: int|
                    0 <= q < rows@.len() ==> (#[trigger] rows@[q])@.len() == self.n_features,
                0 <= i <= rows@.len(),
                out@.len() == i,
                forall|q: int|
                    0 <= q < i ==> out@[q] == self.root.predict_spec(#[trigger] rows@[q]@),
            decreases rows@.len() - i,
        {
            let p = self.predict(&rows[i]);
            out.push(p);
            i += 1;
        }
        out
    }
}

} // verus!
