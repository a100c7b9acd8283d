use ml_cli::evaluator::Accuracy;
use ml_cli::loader::ParseError;
use ml_cli::pipeline::{run, PipelineError};

fn strings(fields: &[&str]) -> Vec<String> {
    fields.iter().map(|s| s.to_string()).collect()
}

fn records(rows: &[&[&str]]) -> Vec<Vec<String>> {
    rows.iter().map(|r| strings(r)).collect()
}

#[test]
fn tiny_table_trains_a_leaf_and_misses_the_held_out_class() {
    let header = strings(&["x1", "x2", "label"]);
    let recs = records(&[
        &["0", "0", "0"],
        &["0", "1", "0"],
        &["1", "0", "1"],
        &["1", "1", "1"],
    ]);
    // Ratio one half: the first two rows (both class 0) train a single
    // leaf; the held-out rows are both class 1.
    let rep = run(&header, &recs, 1, 2).unwrap();
    assert_eq!(rep.predictions, vec![0, 0]);
    assert_eq!(rep.actual, vec![1, 1]);
    assert_eq!(rep.accuracy, Accuracy { correct: 0, total: 2 });
}

#[test]
fn a_separable_table_scores_a_perfect_accuracy() {
    let header = strings(&["x1", "x2", "label"]);
    let mut recs: Vec<Vec<String>> = Vec::new();
    for i in 0..20 {
        let x1 = format!("0.{:02}", i * 5);
        let x2 = format!("{}", i % 3);
        let label = if i * 5 > 50 { "1" } else { "0" };
        recs.push(strings(&[&x1, &x2, label]));
    }
    let rep = run(&header, &recs, 4, 5).unwrap();
    assert_eq!(rep.actual, vec![1, 1, 1, 1]);
    assert_eq!(rep.predictions, vec![1, 1, 1, 1]);
    assert_eq!(rep.accuracy, Accuracy { correct: 4, total: 4 });
}

#[test]
fn a_malformed_row_stops_the_run_before_any_split() {
    let header = strings(&["x1", "x2", "label"]);
    let recs = records(&[&["0", "0", "0"], &["1", "1"], &["1", "0", "1"]]);
    let e = run(&header, &recs, 1, 2).unwrap_err();
    assert_eq!(
        e,
        PipelineError::Parse(ParseError::RaggedRow { row: 1, found: 2, expected: 3 })
    );
    // Even a ratio that would itself be rejected reports the parse error.
    let e2 = run(&header, &recs, 5, 2).unwrap_err();
    assert_eq!(
        e2,
        PipelineError::Parse(ParseError::RaggedRow { row: 1, found: 2, expected: 3 })
    );
}

#[test]
fn a_bad_ratio_stops_a_well_formed_run() {
    let header = strings(&["x1", "label"]);
    let recs = records(&[&["0", "0"], &["1", "1"]]);
    let e = run(&header, &recs, 3, 2).unwrap_err();
    assert!(matches!(e, PipelineError::InvalidRatio(_)));
}
