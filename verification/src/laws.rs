//! Laws the library keeps, stated and proved once and for all.

use crate::dataset::Dataset;
use crate::evaluator::{match_cnt, match_upto};
use crate::trainer::{cnt_label, fit_root, index_rows, is_pure, majority, majority_upto, train_spec};
use crate::tree::{TreeClassifier, TreeNode};
use vstd::prelude::*;

verus! {

/// What "majority" means: the label a leaf predicts occurs at the node, no
/// label at the node is more frequent, and among the most frequent it is
/// the lowest class id.
pub proof fn lemma_majority_is_majority(ls: Seq<u64>, rows: Seq<usize>)
    requires
        rows.len() >= 1,
    ensures
        exists|q: int| 0 <= q < rows.len() && ls[#[trigger] rows[q] as int] == majority(ls, rows),
        forall|q: int|
            0 <= q < rows.len() ==> cnt_label(ls, rows, ls[#[trigger] rows[q] as int]) <= cnt_label(
                ls,
                rows,
                majority(ls, rows),
            ),
        forall|q: int|
            0 <= q < rows.len() && cnt_label(ls, rows, ls[#[trigger] rows[q] as int]) == cnt_label(
                ls,
                rows,
                majority(ls, rows),
            ) ==> majority(ls, rows) <= ls[rows[q] as int],
{
    lemma_majority_upto_is_majority(ls, rows, rows.len() as int);
}

proof fn lemma_majority_upto_is_majority(ls: Seq<u64>, rows: Seq<usize>, k: int)
    requires
        1 <= k <= rows.len(),
    ensures
        exists|q: int| 0 <= q < k && ls[#[trigger] rows[q] as int] == majority_upto(ls, rows, k),
        forall|q: int|
            0 <= q < k ==> cnt_label(ls, rows, ls[#[trigger] rows[q] as int]) <= cnt_label(
                ls,
                rows,
                majority_upto(ls, rows, k),
            ),
        forall|q: int|
            0 <= q < k && cnt_label(ls, rows, ls[#[trigger] rows[q] as int]) == cnt_label(
                ls,
                rows,
                majority_upto(ls, rows, k),
            ) ==> majority_upto(ls, rows, k) <= ls[rows[q] as int],
    decreases k,
{
    if k == 1 {
        assert(ls[rows[0] as int] == majority_upto(ls, rows, 1));
    } else {
        lemma_majority_upto_is_majority(ls, rows, k - 1);
        let prev = majority_upto(ls, rows, k - 1);
        let c = ls[rows[k - 1] as int];
        let m = majority_upto(ls, rows, k);
        if m == c {
            assert(0 <= k - 1 < k && ls[rows[k - 1] as int] == m);
        } else {
            let q0 = choose|q: int| 0 <= q < k - 1 && ls[#[trigger] rows[q] as int] == prev;
            assert(0 <= q0 < k && ls[rows[q0] as int] == m);
        }
    }
}

/// What the splitter's contract means row by row: the two subsets partition
/// the original rows with no overlap — row `i` of the original is row `i`
/// of the training subset when `i < k`, and row `i - k` of the evaluation
/// subset otherwise — and their row counts add up to the original's.
pub proof fn lemma_split_is_a_partition(d: Dataset, tr: Dataset, te: Dataset, k: int)
    requires
        0 <= k <= d.feats().len(),
        d.labs().len() == d.feats().len(),
        tr.feats() == d.feats().take(k),
        tr.labs() == d.labs().take(k),
        te.feats() == d.feats().skip(k),
        te.labs() == d.labs().skip(k),
    ensures
        tr.feats().len() + te.feats().len() == d.feats().len(),
        forall|i: int|
            0 <= i < k ==> tr.feats()[i] == #[trigger] d.feats()[i] && tr.labs()[i] == d.labs()[i],
        forall|i: int|
            k <= i < d.feats().len() ==> te.feats()[i - k] == #[trigger] d.feats()[i]
                && te.labs()[i - k] == d.labs()[i],
{
}

/// Training is deterministic: two classifiers fitted to the same dataset —
/// each satisfying the trainer's contract, which pins the result to
/// `fit_root`, a function of the dataset alone — are structurally
/// identical: same splits, same thresholds, same leaf predictions.
pub proof fn lemma_training_deterministic(d: Dataset, c1: TreeClassifier, c2: TreeClassifier)
    requires
        c1.root == fit_root(d),
        c1.n_features as int == d.nfeatures(),
        c2.root == fit_root(d),
        c2.n_features as int == d.nfeatures(),
    ensures
        c1 == c2,
{
}

/// The majority label of rows that all carry label `c` is `c`.
proof fn lemma_majority_pure(ls: Seq<u64>, rows: Seq<usize>, c: u64, k: int)
    requires
        1 <= k <= rows.len(),
        forall|q: int| 0 <= q < rows.len() ==> ls[#[trigger] rows[q] as int] == c,
    ensures
        majority_upto(ls, rows, k) == c,
    decreases k,
{
    if k > 1 {
        lemma_majority_pure(ls, rows, c, k - 1);
    }
}

/// Training on rows that all share one class label grows a single leaf
/// predicting that label, whatever the gas bound.
pub proof fn lemma_pure_training_is_leaf(
    fs: Seq<Seq<i64>>,
    ls: Seq<u64>,
    nf: int,
    rows: Seq<usize>,
    gas: nat,
    c: u64,
)
    requires
        rows.len() >= 1,
        forall|q: int| 0 <= q < rows.len() ==> ls[#[trigger] rows[q] as int] == c,
    ensures
        train_spec(fs, ls, nf, rows, gas) == (TreeNode::Leaf { label: c }),
{
    assert(is_pure(ls, rows));
    lemma_majority_pure(ls, rows, c, rows.len() as int);
}

/// A whole dataset whose rows all carry label `c` is fitted to a single
/// leaf predicting `c`.
pub proof fn lemma_pure_fit(d: Dataset, c: u64)
    requires
        d.wf(),
        d.nrows() >= 1,
        forall|i: int| 0 <= i < d.nrows() ==> d.labs()[i] == c,
    ensures
        fit_root(d) == (TreeNode::Leaf { label: c }),
{
    let rows = index_rows(d.nrows());
    assert(forall|q: int| 0 <= q < rows.len() ==> d.labs()[#[trigger] rows[q] as int] == c);
    lemma_pure_training_is_leaf(d.feats(), d.labs(), d.nfeatures(), rows, d.nrows() as nat, c);
}

/// Predictions identical to the actual labels match on every row: the
/// confusion matrix's diagonal — and so the accuracy's numerator — is the
/// whole row count, and the accuracy is exactly one.
pub proof fn lemma_accuracy_perfect(actual: Seq<u64>, pred: Seq<u64>, k: int)
    requires
        actual.len() == pred.len(),
        0 <= k <= actual.len(),
        forall|i: int| 0 <= i < actual.len() ==> actual[i] == pred[i],
    ensures
        match_upto(actual, pred, k) == k,
    decreases k,
{
    if k > 0 {
        lemma_accuracy_perfect(actual, pred, k - 1);
    }
}

/// Predictions that differ from the actual label on every row match
/// nowhere: the diagonal — and so the accuracy — is exactly zero.
pub proof fn lemma_accuracy_zero(actual: Seq<u64>, pred: Seq<u64>, k: int)
    requires
        actual.len() == pred.len(),
        0 <= k <= actual.len(),
        forall|i: int| 0 <= i < actual.len() ==> actual[i] != pred[i],
    ensures
        match_upto(actual, pred, k) == 0,
    decreases k,
{
    if k > 0 {
        lemma_accuracy_zero(actual, pred, k - 1);
    }
}

/// The two match-count laws at the sequences' full length.
pub proof fn lemma_match_cnt_extremes(actual: Seq<u64>, pred: Seq<u64>)
    requires
        actual.len() == pred.len(),
    ensures
        (forall|i: int| 0 <= i < actual.len() ==> actual[i] == pred[i]) ==> match_cnt(actual, pred)
            == actual.len(),
        (forall|i: int| 0 <= i < actual.len() ==> actual[i] != pred[i]) ==> match_cnt(actual, pred)
            == 0,
{
    if forall|i: int| 0 <= i < actual.len() ==> actual[i] == pred[i] {
        lemma_accuracy_perfect(actual, pred, actual.len() as int);
    }
    if forall|i: int| 0 <= i < actual.len() ==> actual[i] != pred[i] {
        lemma_accuracy_zero(actual, pred, actual.len() as int);
    }
}

} // verus!
