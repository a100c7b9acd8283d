//! The whole run, end to end: load the table, split it, train on the first
//! part, predict the second, and score the predictions.

use crate::dataset::{train_count, InvalidRatioError, Splitter};
use crate::evaluator::{match_cnt, Accuracy, Evaluator};
use crate::loader::{feat_matrix, header_view, label_col, records_view, table_ok, ParseError, TableLoader};
use crate::trainer::{index_rows, train_spec, TreeTrainer};
use crate::tree::TreeNode;
use vstd::prelude::*;

verus! {

/// What stopped the run: the table was refused before any split or
/// training, or the ratio made a degenerate split.
#[derive(Debug, Clone, Copy, PartialEq, Eq)]
pub enum PipelineError {
    Parse(ParseError),
    InvalidRatio(InvalidRatioError),
}

/// The run's outcome: predictions for the evaluation rows, their true
/// labels, and the accuracy.
#[derive(Debug, PartialEq, Eq)]
pub struct PipelineReport {
    pub predictions: Vec<u64>,
    pub actual: Vec<u64>,
    pub accuracy: Accuracy,
}

/// Whether the ratio `num / den` yields two non-empty subsets of `n` rows.
pub open spec fn ratio_ok(n: int, num: u64, den: u64) -> bool {
    0 < num < den && 1 <= train_count(n, num as int, den as int) < n
}

/// The tree the run trains: grown from the first `train_count` parsed rows.
pub open spec fn pipeline_root(hv: Seq<Seq<char>>, rv: Seq<Seq<Seq<char>>>, num: u64, den: u64) -> TreeNode {
    let m = hv.len() as int - 1;
    let k = train_count(rv.len() as int, num as int, den as int);
    train_spec(
        feat_matrix(rv, m).take(k),
        label_col(rv, m).take(k),
        m,
        index_rows(k),
        k as nat,
    )
}

/// Loads, splits, trains, predicts and scores, in that order. A bad table
/// is reported before any split or training; a bad ratio before training.
/// On success the report holds exactly the trained tree's predictions for
/// the evaluation rows, those rows' true labels, and the match count over
/// the row count as the accuracy.
pub fn run(header: &Vec<String>, records: &Vec<Vec<String>>, num: u64, den: u64) -> (r: Result<
    PipelineReport,
    PipelineError,
>)
    requires
        records@.len() <= crate::MAX_ROWS,
    ensures
        ({
            let hv = header_view(*header);
            let rv = records_view(*records);
            let m = hv.len() as int - 1;
            let n = rv.len() as int;
            let k = train_count(n, num as int, den as int);
            &&& ((r matches Err(PipelineError::Parse(_))) <==> !table_ok(hv, rv))
            &&& (table_ok(hv, rv) ==> ((r matches Err(PipelineError::InvalidRatio(_))) <==> !ratio_ok(
                n,
                num,
                den,
            )))
            &&& (r is Ok <==> table_ok(hv, rv) && ratio_ok(n, num, den))
            &&& (r matches Ok(rep) ==> {
                &&& rep.actual@ == label_col(rv, m).skip(k)
                &&& rep.predictions@.len() == n - k
                &&& (forall|i: int|
                    0 <= i < n - k ==> rep.predictions@[i] == pipeline_root(
                        hv,
                        rv,
                        num,
                        den,
                    ).predict_spec(#[trigger] feat_matrix(rv, m)[k + i]))
                &&& rep.accuracy.total == n - k
                &&& rep.accuracy.correct == match_cnt(rep.actual@, rep.predictions@)
            })
        }),
{
    let d = match TableLoader::load(header, records) {
        Ok(d) => d,
        Err(e) => {
            return Err(PipelineError::Parse(e));
        },
    };
    let (train, test) = match Splitter::split(&d, num, den) {
        Ok(p) => p,
        Err(e) => {
            return Err(PipelineError::InvalidRatio(e));
        },
    };
    let model = match TreeTrainer::fit(&train) {
        Ok(c) => c,
        Err(_) => {
            proof {
                assert(false);
            }
            return Err(PipelineError::InvalidRatio(InvalidRatioError));
        },
    };
    proof {
        assert(train.feats() == feat_matrix(records_view(*records), train.nfeatures()).take(
            train.nrows(),
        ));
    }
    proof {
        assert(train.names().len() == test.names().len());
        assert(train.nfeatures() == test.nfeatures());
        assert(forall|i: int|
            0 <= i < test.features@.len() ==> (#[trigger] test.features@[i])@.len()
                == model.n_features);
    }
    let predictions = model.predict_batch(&test.features);
    let cm = match Evaluator::confusion_matrix(&predictions, &test.labels) {
        Ok(cm) => cm,
        Err(_) => {
            proof {
                assert(false);
            }
            return Err(PipelineError::InvalidRatio(InvalidRatioError));
        },
    };
    let accuracy = Evaluator::accuracy(&cm);
    Ok(PipelineReport { predictions, actual: test.labels, accuracy })
}

} // verus!
