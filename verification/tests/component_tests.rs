use ml_cli::dataset::{Dataset, InvalidRatioError, Splitter};
use ml_cli::evaluator::{Accuracy, Evaluator, ShapeMismatchError};
use ml_cli::loader::{ParseError, TableLoader};
use ml_cli::parse::SCALE;
use ml_cli::trainer::TreeTrainer;
use ml_cli::tree::TreeNode;

fn strings(fields: &[&str]) -> Vec<String> {
    fields.iter().map(|s| s.to_string()).collect()
}

fn records(rows: &[&[&str]]) -> Vec<Vec<String>> {
    rows.iter().map(|r| strings(r)).collect()
}

#[test]
fn loader_shapes_match_the_table() {
    let header = strings(&["x1", "x2", "label"]);
    let recs = records(&[&["0", "0", "0"], &["0.5", "1", "0"], &["1", "0", "1"]]);
    let d = TableLoader::load(&header, &recs).unwrap();
    assert_eq!(d.n_rows(), 3);
    assert_eq!(d.n_features(), 2);
    assert_eq!(d.labels, vec![0, 0, 1]);
    assert_eq!(d.features[1], vec![SCALE / 2, SCALE]);
    assert_eq!(d.feature_names, strings(&["x1", "x2"]));
}

#[test]
fn loader_reports_the_first_ragged_row() {
    let header = strings(&["x1", "x2", "label"]);
    let recs = records(&[&["0", "0", "0"], &["1", "2"]]);
    let e = TableLoader::load(&header, &recs).unwrap_err();
    assert_eq!(e, ParseError::RaggedRow { row: 1, found: 2, expected: 3 });
}

#[test]
fn loader_reports_the_first_bad_field() {
    let header = strings(&["x1", "label"]);
    let recs = records(&[&["0", "0"], &["oops", "1"]]);
    let e = TableLoader::load(&header, &recs).unwrap_err();
    assert_eq!(e, ParseError::BadField { row: 1, column: 0 });
    let recs2 = records(&[&["0", "bad"]]);
    let e2 = TableLoader::load(&header, &recs2).unwrap_err();
    assert_eq!(e2, ParseError::BadField { row: 0, column: 1 });
}

#[test]
fn loader_rejects_an_empty_header() {
    let header: Vec<String> = Vec::new();
    let recs = records(&[]);
    assert_eq!(TableLoader::load(&header, &recs).unwrap_err(), ParseError::EmptyHeader);
}

fn small_dataset() -> Dataset {
    let features = vec![
        vec![0, 0],
        vec![0, SCALE],
        vec![SCALE, 0],
        vec![SCALE, SCALE],
    ];
    let labels = vec![0, 0, 1, 1];
    let names = strings(&["x1", "x2"]);
    Dataset::new(features, labels, names).unwrap()
}

#[test]
fn split_keeps_order_and_counts() {
    let d = small_dataset();
    let (train, test) = Splitter::split(&d, 1, 2).unwrap();
    assert_eq!(train.n_rows(), 2);
    assert_eq!(test.n_rows(), 2);
    assert_eq!(train.labels, vec![0, 0]);
    assert_eq!(test.labels, vec![1, 1]);
    assert_eq!(train.features[0], vec![0, 0]);
    assert_eq!(test.features[0], vec![SCALE, 0]);
}

#[test]
fn split_takes_the_floor() {
    let features = vec![vec![0], vec![SCALE], vec![2 * SCALE], vec![3 * SCALE], vec![4 * SCALE]];
    let labels = vec![0, 0, 1, 1, 1];
    let d = Dataset::new(features, labels, strings(&["x"])).unwrap();
    let (train, test) = Splitter::split(&d, 1, 2).unwrap();
    assert_eq!(train.n_rows(), 2);
    assert_eq!(test.n_rows(), 3);
}

#[test]
fn split_rejects_bad_ratios() {
    let d = small_dataset();
    assert_eq!(Splitter::split(&d, 0, 2).unwrap_err(), InvalidRatioError);
    assert_eq!(Splitter::split(&d, 2, 2).unwrap_err(), InvalidRatioError);
    assert_eq!(Splitter::split(&d, 3, 2).unwrap_err(), InvalidRatioError);
    assert_eq!(Splitter::split(&d, 1, 0).unwrap_err(), InvalidRatioError);
    // One row: either subset would be empty.
    let one = Dataset::new(vec![vec![0]], vec![0], strings(&["x"])).unwrap();
    assert_eq!(Splitter::split(&one, 1, 2).unwrap_err(), InvalidRatioError);
    // A tiny ratio leaves the training subset empty.
    assert_eq!(Splitter::split(&d, 1, 100).unwrap_err(), InvalidRatioError);
}

#[test]
fn training_twice_gives_identical_trees() {
    let d = small_dataset();
    let c1 = TreeTrainer::fit(&d).unwrap();
    let c2 = TreeTrainer::fit(&d).unwrap();
    assert_eq!(c1, c2);
}

#[test]
fn training_a_pure_set_gives_a_single_leaf() {
    let features = vec![vec![0, 0], vec![SCALE, 0], vec![0, SCALE]];
    let labels = vec![7, 7, 7];
    let d = Dataset::new(features, labels, strings(&["x1", "x2"])).unwrap();
    let c = TreeTrainer::fit(&d).unwrap();
    assert_eq!(c.root, TreeNode::Leaf { label: 7 });
}

#[test]
fn training_rejects_an_empty_set() {
    let d = Dataset::new(Vec::new(), Vec::new(), strings(&["x"])).unwrap();
    assert!(TreeTrainer::fit(&d).is_err());
}

#[test]
fn a_separable_pair_grows_one_split() {
    let features = vec![vec![0], vec![SCALE]];
    let labels = vec![0, 1];
    let d = Dataset::new(features, labels, strings(&["x"])).unwrap();
    let c = TreeTrainer::fit(&d).unwrap();
    assert_eq!(
        c.root,
        TreeNode::Split {
            feature: 0,
            threshold: 0,
            left: Box::new(TreeNode::Leaf { label: 0 }),
            right: Box::new(TreeNode::Leaf { label: 1 }),
        }
    );
    assert_eq!(c.predict(&vec![-3 * SCALE]), 0);
    assert_eq!(c.predict(&vec![0]), 0);
    assert_eq!(c.predict(&vec![SCALE / 4]), 1);
    assert_eq!(c.predict_batch(&vec![vec![0], vec![2 * SCALE]]), vec![0, 1]);
}

#[test]
fn no_improving_split_yields_the_majority_leaf() {
    // An exclusive-or layout: every candidate split leaves both children as
    // mixed as the parent, so the trainer stops at a leaf, and the tie
    // between the two equally frequent classes breaks to the lower id.
    let features = vec![
        vec![0, 0],
        vec![0, SCALE],
        vec![SCALE, 0],
        vec![SCALE, SCALE],
    ];
    let labels = vec![0, 1, 1, 0];
    let d = Dataset::new(features, labels, strings(&["x1", "x2"])).unwrap();
    let c = TreeTrainer::fit(&d).unwrap();
    assert_eq!(c.root, TreeNode::Leaf { label: 0 });
}

#[test]
fn equal_scores_break_to_the_lowest_threshold() {
    // Three classes on one feature: the two candidate thresholds score the
    // same, so the lower one is chosen, and the right child splits again.
    let features = vec![vec![0], vec![SCALE], vec![2 * SCALE]];
    let labels = vec![0, 1, 2];
    let d = Dataset::new(features, labels, strings(&["x"])).unwrap();
    let c = TreeTrainer::fit(&d).unwrap();
    assert_eq!(
        c.root,
        TreeNode::Split {
            feature: 0,
            threshold: 0,
            left: Box::new(TreeNode::Leaf { label: 0 }),
            right: Box::new(TreeNode::Split {
                feature: 0,
                threshold: SCALE,
                left: Box::new(TreeNode::Leaf { label: 1 }),
                right: Box::new(TreeNode::Leaf { label: 2 }),
            }),
        }
    );
}

#[test]
fn confusion_matrix_counts_pairs() {
    let pred = vec![0u64, 1, 1, 0];
    let actual = vec![0u64, 1, 0, 1];
    let cm = Evaluator::confusion_matrix(&pred, &actual).unwrap();
    assert_eq!(cm.classes, vec![0, 1]);
    // actual 0: predicted 0 once, predicted 1 once; actual 1: each once.
    assert_eq!(cm.cells, vec![vec![1, 1], vec![1, 1]]);
    let acc = Evaluator::accuracy(&cm);
    assert_eq!(acc, Accuracy { correct: 2, total: 4 });
}

#[test]
fn accuracy_is_one_on_identical_sequences() {
    let pred = vec![1u64, 2, 1, 3];
    let actual = pred.clone();
    let cm = Evaluator::confusion_matrix(&pred, &actual).unwrap();
    let acc = Evaluator::accuracy(&cm);
    assert_eq!(acc, Accuracy { correct: 4, total: 4 });
}

#[test]
fn accuracy_is_zero_when_nothing_matches() {
    let pred = vec![1u64, 1];
    let actual = vec![0u64, 2];
    let cm = Evaluator::confusion_matrix(&pred, &actual).unwrap();
    let acc = Evaluator::accuracy(&cm);
    assert_eq!(acc, Accuracy { correct: 0, total: 2 });
}

#[test]
fn accuracy_of_an_empty_matrix_is_zero() {
    let pred: Vec<u64> = Vec::new();
    let actual: Vec<u64> = Vec::new();
    let cm = Evaluator::confusion_matrix(&pred, &actual).unwrap();
    let acc = Evaluator::accuracy(&cm);
    assert_eq!(acc, Accuracy { correct: 0, total: 0 });
}

#[test]
fn confusion_matrix_rejects_a_length_mismatch() {
    let pred = vec![0u64];
    let actual = vec![0u64, 1];
    assert_eq!(Evaluator::confusion_matrix(&pred, &actual).unwrap_err(), ShapeMismatchError);
}
