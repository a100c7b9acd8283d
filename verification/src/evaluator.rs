//! Comparing predictions to ground truth: the confusion matrix and the
//! accuracy derived from it.

use vstd::prelude::*;

verus! {

/// The predicted and the actual label sequences differ in length.
#[derive(Debug, Clone, Copy, PartialEq, Eq)]
pub struct ShapeMismatchError;

/// How many of the first `k` evaluated rows have actual label `a` and
/// predicted label `p`.
pub open spec fn pair_cnt_upto(actual: Seq<u64>, pred: Seq<u64>, a: u64, p: u64, k: int) -> nat
    decreases k,
{
    if k <= 0 {
        0
    } else {
        pair_cnt_upto(actual, pred, a, p, k - 1) + (if actual[k - 1] == a && pred[k - 1] == p {
            1nat
        } else {
            0nat
        })
    }
}

/// The count of rows with actual label `a` and predicted label `p`.
pub open spec fn pair_cnt(actual: Seq<u64>, pred: Seq<u64>, a: u64, p: u64) -> nat {
    pair_cnt_upto(actual, pred, a, p, actual.len() as int)
}

/// How many of the first `k` rows are predicted exactly right.
pub open spec fn match_upto(actual: Seq<u64>, pred: Seq<u64>, k: int) -> nat
    decreases k,
{
    if k <= 0 {
        0
    } else {
        match_upto(actual, pred, k - 1) + (if actual[k - 1] == pred[k - 1] {
            1nat
        } else {
            0nat
        })
    }
}

/// The count of rows predicted exactly right.
pub open spec fn match_cnt(actual: Seq<u64>, pred: Seq<u64>) -> nat {
    match_upto(actual, pred, actual.len() as int)
}

/// The sum of one row of cells.
pub open spec fn sum_seq(s: Seq<u64>) -> int
    decreases s.len(),
{
    if s.len() == 0 {
        0
    } else {
        sum_seq(s.drop_last()) + s.last()
    }
}

/// The sum of all cells of the first `k` rows.
pub open spec fn total_upto(g: Seq<Seq<u64>>, k: int) -> int
    decreases k,
{
    if k <= 0 {
        0
    } else {
        total_upto(g, k - 1) + sum_seq(g[k - 1])
    }
}

/// The sum of all cells.
pub open spec fn total_sum(g: Seq<Seq<u64>>) -> int {
    total_upto(g, g.len() as int)
}

/// The sum of the first `k` diagonal cells.
pub open spec fn diag_upto(g: Seq<Seq<u64>>, k: int) -> int
    decreases k,
{
    if k <= 0 {
        0
    } else {
        diag_upto(g, k - 1) + g[k - 1][k - 1]
    }
}

/// The sum of the diagonal.
pub open spec fn diag_sum(g: Seq<Seq<u64>>) -> int {
    diag_upto(g, g.len() as int)
}

/// No class id appears twice.
pub open spec fn distinct(cs: Seq<u64>) -> bool {
    forall|i: int, j: int| 0 <= i < j < cs.len() ==> cs[i] != cs[j]
}

/// The class list holds exactly the ids observed in either sequence.
pub open spec fn classes_complete(cs: Seq<u64>, actual: Seq<u64>, pred: Seq<u64>) -> bool {
    &&& forall|q: int| 0 <= q < actual.len() ==> cs.contains(#[trigger] actual[q])
    &&& forall|q: int| 0 <= q < pred.len() ==> cs.contains(#[trigger] pred[q])
    &&& forall|i: int|
        0 <= i < cs.len() ==> actual.contains(#[trigger] cs[i]) || pred.contains(cs[i])
}

/// The square mapping from (actual class, predicted class) to how often the
/// pair occurred, over the classes observed in the evaluation.
#[derive(Debug, PartialEq, Eq)]
pub struct ConfusionMatrix {
    pub classes: Vec<u64>,
    pub cells: Vec<Vec<u64>>,
}

impl ConfusionMatrix {
    /// The cells as a sequence of rows: actual class by row, predicted class
    /// by column.
    pub open spec fn grid(self) -> Seq<Seq<u64>> {
        self.cells@.map_values(|r: Vec<u64>| r@)
    }

    /// Square, one row and one column per class, classes distinct.
    pub open spec fn wf(self) -> bool {
        &&& self.cells@.len() == self.classes@.len()
        &&& forall|i: int|
            0 <= i < self.cells@.len() ==> (#[trigger] self.cells@[i])@.len()
                == self.classes@.len()
        &&& distinct(self.classes@)
    }
}

/// The classification accuracy as an exact fraction: `correct` matching
/// rows out of `total` evaluated, the value taken as 0 where `total` is 0
/// rather than dividing by zero.
#[derive(Debug, Clone, Copy, PartialEq, Eq, Structural)]
pub struct Accuracy {
    pub correct: u64,
    pub total: u64,
}

// ---------------------------------------------------------------------
// Sum lemmas.
// ---------------------------------------------------------------------

pub proof fn lemma_sum_nonneg(s: Seq<u64>)
    ensures
        sum_seq(s) >= 0,
    decreases s.len(),
{
    if s.len() > 0 {
        lemma_sum_nonneg(s.drop_last());
    }
}

/// A row of zeros sums to zero.
pub proof fn lemma_sum_zero(s: Seq<u64>)
    requires
        forall|j: int| 0 <= j < s.len() ==> s[j] == 0,
    ensures
        sum_seq(s) == 0,
    decreases s.len(),
{
    if s.len() > 0 {
        lemma_sum_zero(s.drop_last());
    }
}

/// Changing one cell changes the row sum by the difference.
pub proof fn lemma_sum_update(s: Seq<u64>, j: int, w: u64)
    requires
        0 <= j < s.len(),
    ensures
        sum_seq(s.update(j, w)) == sum_seq(s) - s[j] + w,
    decreases s.len(),
{
    let t = s.update(j, w);
    if j == s.len() - 1 {
        assert(t.drop_last() =~= s.drop_last());
    } else {
        assert(t.drop_last() =~= s.drop_last().update(j, w));
        lemma_sum_update(s.drop_last(), j, w);
    }
}

/// A grid of zero rows totals zero.
pub proof fn lemma_total_zero(g: Seq<Seq<u64>>, k: int)
    requires
        0 <= k <= g.len(),
        forall|i: int, j: int| 0 <= i < g.len() && 0 <= j < g[i].len() ==> g[i][j] == 0,
    ensures
        total_upto(g, k) == 0,
    decreases k,
{
    if k > 0 {
        lemma_total_zero(g, k - 1);
        lemma_sum_zero(g[k - 1]);
    }
}

pub proof fn lemma_diag_zero(g: Seq<Seq<u64>>, k: int)
    requires
        0 <= k <= g.len(),
        forall|i: int, j: int| 0 <= i < g.len() && 0 <= j < g[i].len() ==> g[i][j] == 0,
        forall|i: int| 0 <= i < g.len() ==> (#[trigger] g[i]).len() == g.len(),
    ensures
        diag_upto(g, k) == 0,
    decreases k,
{
    if k > 0 {
        lemma_diag_zero(g, k - 1);
    }
}

/// Replacing one row changes the total by the difference of row sums.
pub proof fn lemma_total_update(g: Seq<Seq<u64>>, i: int, r: Seq<u64>, k: int)
    requires
        0 <= i < g.len(),
        0 <= k <= g.len(),
    ensures
        total_upto(g.update(i, r), k) == total_upto(g, k) + (if i < k {
            sum_seq(r) - sum_seq(g[i])
        } else {
            0
        }),
    decreases k,
{
    let t = g.update(i, r);
    if k > 0 {
        lemma_total_update(g, i, r, k - 1);
        if i == k - 1 {
            assert(t[k - 1] == r);
        } else {
            assert(t[k - 1] == g[k - 1]);
        }
    }
}

/// Replacing one row changes the diagonal by the difference at its own
/// column.
pub proof fn lemma_diag_update(g: Seq<Seq<u64>>, i: int, r: Seq<u64>, k: int)
    requires
        0 <= i < g.len(),
        0 <= k <= g.len(),
    ensures
        diag_upto(g.update(i, r), k) == diag_upto(g, k) + (if i < k {
            r[i] - g[i][i]
        } else {
            0
        }),
    decreases k,
{
    let t = g.update(i, r);
    if k > 0 {
        lemma_diag_update(g, i, r, k - 1);
        if i == k - 1 {
            assert(t[k - 1] == r);
        } else {
            assert(t[k - 1] == g[k - 1]);
        }
    }
}

/// A pair count over `k` rows is at most `k`.
pub proof fn lemma_pair_cnt_le(actual: Seq<u64>, pred: Seq<u64>, a: u64, p: u64, k: int)
    requires
        k >= 0,
    ensures
        pair_cnt_upto(actual, pred, a, p, k) <= k,
    decreases k,
{
    if k > 0 {
        lemma_pair_cnt_le(actual, pred, a, p, k - 1);
    }
}

/// One cell is at most its row's sum.
pub proof fn lemma_cell_le_sum(s: Seq<u64>, j: int)
    requires
        0 <= j < s.len(),
    ensures
        s[j] <= sum_seq(s),
    decreases s.len(),
{
    lemma_sum_nonneg(s.drop_last());
    if j < s.len() - 1 {
        lemma_cell_le_sum(s.drop_last(), j);
    }
}

/// Row prefixes of the total only grow.
pub proof fn lemma_total_mono(g: Seq<Seq<u64>>, k1: int, k2: int)
    requires
        0 <= k1 <= k2 <= g.len(),
    ensures
        total_upto(g, k1) <= total_upto(g, k2),
    decreases k2 - k1,
{
    if k1 < k2 {
        lemma_sum_nonneg(g[k2 - 1]);
        lemma_total_mono(g, k1, k2 - 1);
    }
}

/// On a square grid the diagonal prefix never exceeds the total prefix.
pub proof fn lemma_diag_le_total(g: Seq<Seq<u64>>, k: int)
    requires
        0 <= k <= g.len(),
        forall|i: int| 0 <= i < g.len() ==> (#[trigger] g[i]).len() == g.len(),
    ensures
        0 <= diag_upto(g, k) <= total_upto(g, k),
    decreases k,
{
    if k > 0 {
        lemma_diag_le_total(g, k - 1);
        lemma_cell_le_sum(g[k - 1], k - 1);
        lemma_sum_nonneg(g[k - 1]);
    }
}

/// The grid whose cell (i, j) counts the pairs (classes[i], classes[j])
/// over the first `k` evaluated rows.
pub open spec fn cnt_grid(actual: Seq<u64>, pred: Seq<u64>, cs: Seq<u64>, k: int) -> Seq<Seq<u64>> {
    Seq::new(cs.len(), |i: int| Seq::new(cs.len(), |j: int| pair_cnt_upto(actual, pred, cs[i], cs[j], k) as u64))
}

/// Each evaluated row lands in exactly one cell, and on the diagonal
/// exactly when it is predicted right: so the cells total the row count and
/// the diagonal totals the match count.
pub proof fn lemma_grid_sums(actual: Seq<u64>, pred: Seq<u64>, cs: Seq<u64>, k: int)
    requires
        actual.len() == pred.len(),
        0 <= k <= actual.len(),
        actual.len() <= u64::MAX,
        distinct(cs),
        forall|q: int| 0 <= q < actual.len() ==> cs.contains(#[trigger] actual[q]),
        forall|q: int| 0 <= q < pred.len() ==> cs.contains(#[trigger] pred[q]),
    ensures
        total_sum(cnt_grid(actual, pred, cs, k)) == k,
        diag_sum(cnt_grid(actual, pred, cs, k)) == match_upto(actual, pred, k),
    decreases k,
{
    let m = cs.len() as int;
    let g2 = cnt_grid(actual, pred, cs, k);
    if k == 0 {
        assert(forall|i: int, j: int| 0 <= i < g2.len() && 0 <= j < g2[i].len() ==> g2[i][j] == 0);
        lemma_total_zero(g2, m);
        lemma_diag_zero(g2, m);
    } else {
        lemma_grid_sums(actual, pred, cs, k - 1);
        let g1 = cnt_grid(actual, pred, cs, k - 1);
        let a = actual[k - 1];
        let p = pred[k - 1];
        assert(cs.contains(a));
        assert(cs.contains(p));
        let ci = choose|i: int| 0 <= i < cs.len() && cs[i] == a;
        let cj = choose|j: int| 0 <= j < cs.len() && cs[j] == p;
        lemma_pair_cnt_le(actual, pred, a, p, k);
        let w: u64 = (pair_cnt_upto(actual, pred, a, p, k - 1) + 1) as u64;
        let r = g1[ci].update(cj, w);
        assert(g2 =~~= g1.update(ci, r)) by {
            assert forall|i: int, j: int| 0 <= i < m && 0 <= j < m implies g2[i][j] == g1.update(
                ci,
                r,
            )[i][j] by {
                lemma_pair_cnt_le(actual, pred, cs[i], cs[j], k - 1);
                if i == ci && j == cj {
                } else {
                    assert(!(cs[i] == a && cs[j] == p));
                }
            }
        }
        lemma_total_update(g1, ci, r, m);
        lemma_sum_update(g1[ci], cj, w);
        lemma_diag_update(g1, ci, r, m);
        lemma_pair_cnt_le(actual, pred, a, p, k - 1);
        if ci == cj {
            assert(a == p);
        } else {
            assert(r[ci] == g1[ci][ci]);
            assert(a != p);
        }
    }
}

/// Compares predictions to ground truth.
pub struct Evaluator;

/// Counts the rows with the given actual and predicted labels.
fn count_pair(actual: &Vec<u64>, pred: &Vec<u64>, a: u64, p: u64) -> (r: u64)
    requires
        actual@.len() == pred@.len(),
    ensures
        r == pair_cnt(actual@, pred@, a, p),
{
    let mut cnt: u64 = 0;
    let mut k: usize = 0;
    while k < actual.len()
        invariant
            actual@.len() == pred@.len(),
            0 <= k <= actual@.len(),
            cnt <= k,
            cnt == pair_cnt_upto(actual@, pred@, a, p, k as int),
        decreases actual@.len() - k,
    {
        if actual[k] == a && pred[k] == p {
            cnt += 1;
        }
        k += 1;
    }
    cnt
}

/// Finds a label in the class list.
fn class_index(cs: &Vec<u64>, x: u64) -> (r: Option<usize>)
    ensures
        match r {
            Some(i) => i < cs@.len() && cs@[i as int] == x,
            None => !cs@.contains(x),
        },
{
    let mut i: usize = 0;
    while i < cs.len()
        invariant
            0 <= i <= cs@.len(),
            forall|q: int| 0 <= q < i ==> cs@[q] != x,
        decreases cs@.len() - i,
    {
        if cs[i] == x {
            return Some(i);
        }
        i += 1;
    }
    None
}

impl Evaluator {
    /// Builds the confusion matrix of two equal-length label sequences:
    /// cell (i, j) counts the rows whose actual label is class `i` and
    /// whose predicted label is class `j`, over the classes observed in
    /// either sequence. The cells total the number of evaluated rows; the
    /// diagonal totals the rows predicted exactly right. Fails exactly when
    /// the lengths differ.
    pub fn confusion_matrix(pred: &Vec<u64>, actual: &Vec<u64>) -> (r: Result<
        ConfusionMatrix,
        ShapeMismatchError,
    >)
        ensures
            r is Ok <==> pred@.len() == actual@.len(),
            r matches Ok(cm) ==> {
                &&& cm.wf()
                &&& classes_complete(cm.classes@, actual@, pred@)
                &&& cm.grid().len() == cm.classes@.len()
                &&& forall|i: int, j: int|
                    0 <= i < cm.classes@.len() && 0 <= j < cm.classes@.len()
                        ==> #[trigger] cm.grid()[i][j] == pair_cnt(
                        actual@,
                        pred@,
                        cm.classes@[i],
                        cm.classes@[j],
                    )
                &&& total_sum(cm.grid()) == actual@.len()
                &&& diag_sum(cm.grid()) == match_cnt(actual@, pred@)
            },
    {
        if pred.len() != actual.len() {
            return Err(ShapeMismatchError);
        }
        let n = actual.len();

        let mut classes: Vec<u64> = Vec::new();
        let mut k: usize = 0;
        while k < n
            invariant
                n == actual@.len() && n == pred@.len(),
                0 <= k <= n,
                distinct(classes@),
                forall|q: int| 0 <= q < k ==> classes@.contains(#[trigger] actual@[q]),
                forall|q: int| 0 <= q < k ==> classes@.contains(#[trigger] pred@[q]),
                forall|i: int|
                    0 <= i < classes@.len() ==> actual@.contains(#[trigger] classes@[i])
                        || pred@.contains(classes@[i]),
            decreases n - k,
        {
            let a = actual[k];
            let fa = class_index(&classes, a);
            if fa.is_none() {
                let ghost oldc = classes@;
                classes.push(a);
                proof {
                    assert(classes@[oldc.len() as int] == a);
                    assert(classes@.contains(a));
                    assert(actual@.contains(actual@[k as int]));
                    assert forall|c: u64| oldc.contains(c) implies classes@.contains(c) by {
                        let ii = choose|ii: int| 0 <= ii < oldc.len() && oldc[ii] == c;
                        assert(classes@[ii] == c);
                    }
                    assert forall|i1: int, j1: int|
                        0 <= i1 < j1 < classes@.len() implies classes@[i1] != classes@[j1] by {
                        if j1 == oldc.len() {
                            assert(classes@[i1] == oldc[i1]);
                            assert(oldc.contains(oldc[i1]));
                        }
                    }
                    assert(distinct(classes@));
                }
            } else {
                proof {
                    assert(classes@[fa->0 as int] == a);
                    assert(classes@.contains(a));
                }
            }
            let p = pred[k];
            let fp = class_index(&classes, p);
            if fp.is_none() {
                let ghost oldc = classes@;
                classes.push(p);
                proof {
                    assert(classes@[oldc.len() as int] == p);
                    assert(classes@.contains(p));
                    assert(pred@.contains(pred@[k as int]));
                    assert forall|c: u64| oldc.contains(c) implies classes@.contains(c) by {
                        let ii = choose|ii: int| 0 <= ii < oldc.len() && oldc[ii] == c;
                        assert(classes@[ii] == c);
                    }
                    assert forall|i1: int, j1: int|
                        0 <= i1 < j1 < classes@.len() implies classes@[i1] != classes@[j1] by {
                        if j1 == oldc.len() {
                            assert(classes@[i1] == oldc[i1]);
                            assert(oldc.contains(oldc[i1]));
                        }
                    }
                    assert(distinct(classes@));
                }
            } else {
                proof {
                    assert(classes@[fp->0 as int] == p);
                    assert(classes@.contains(p));
                }
            }
            k += 1;
        }

        let m = classes.len();
        let mut cells: Vec<Vec<u64>> = Vec::new();
        let mut i: usize = 0;
        while i < m
            invariant
                n == actual@.len() && n == pred@.len(),
                m == classes@.len(),
                0 <= i <= m,
                cells@.len() == i,
                forall|q: int| 0 <= q < i ==> (#[trigger] cells@[q])@.len() == m,
                forall|q: int, j: int|
                    0 <= q < i && 0 <= j < m ==> #[trigger] cells@[q]@[j] == pair_cnt(
                        actual@,
                        pred@,
                        classes@[q],
                        classes@[j],
                    ),
            decreases m - i,
        {
            let mut row: Vec<u64> = Vec::new();
            let mut j: usize = 0;
            while j < m
                invariant
                    n == actual@.len() && n == pred@.len(),
                    m == classes@.len(),
                    0 <= i < m,
                    0 <= j <= m,
                    row@.len() == j,
                    forall|q: int|
                        0 <= q < j ==> row@[q] == pair_cnt(
                            actual@,
                            pred@,
                            classes@[i as int],
                            classes@[q],
                        ),
                decreases m - j,
            {
                let c = count_pair(actual, pred, classes[i], classes[j]);
                row.push(c);
                j += 1;
            }
            cells.push(row);
            i += 1;
        }

        let cm = ConfusionMatrix { classes, cells };
        proof {
            assert(cm.grid() =~~= cnt_grid(actual@, pred@, cm.classes@, n as int)) by {
                assert forall|q: int, j: int|
                    0 <= q < m && 0 <= j < m implies cm.grid()[q][j] == cnt_grid(
                    actual@,
                    pred@,
                    cm.classes@,
                    n as int,
                )[q][j] by {
                    lemma_pair_cnt_le(actual@, pred@, cm.classes@[q], cm.classes@[j], n as int);
                }
            }
            lemma_grid_sums(actual@, pred@, cm.classes@, n as int);
        }
        Ok(cm)
    }

    /// Derives the accuracy from a confusion matrix: the diagonal total over
    /// the grand total, as an exact fraction, with a zero value for an empty
    /// matrix.
    pub fn accuracy(cm: &ConfusionMatrix) -> (r: Accuracy)
        requires
            cm.wf(),
            total_sum(cm.grid()) <= u64::MAX,
        ensures
            r.correct == diag_sum(cm.grid()),
            r.total == total_sum(cm.grid()),
            r.correct <= r.total,
    {
        let ghost g = cm.grid();
        let m = cm.cells.len();
        proof {
            assert(forall|i: int| 0 <= i < g.len() ==> (#[trigger] g[i]).len() == g.len());
            lemma_diag_le_total(g, m as int);
        }
        let mut total: u64 = 0;
        let mut correct: u64 = 0;
        let mut i: usize = 0;
        while i < m
            invariant
                cm.wf(),
                g == cm.grid(),
                m == cm.cells@.len(),
                forall|q: int| 0 <= q < g.len() ==> (#[trigger] g[q]).len() == g.len(),
                total_sum(g) <= u64::MAX,
                0 <= i <= m,
                total == total_upto(g, i as int),
                correct == diag_upto(g, i as int),
            decreases m - i,
        {
            proof {
                lemma_total_mono(g, i + 1, m as int);
                lemma_diag_le_total(g, i + 1);
                lemma_diag_le_total(g, i as int);
                lemma_sum_nonneg(g[i as int]);
                lemma_cell_le_sum(g[i as int], i as int);
            }
            let row = &cm.cells[i];
            let mut rs: u64 = 0;
            let mut j: usize = 0;
            while j < row.len()
                invariant
                    g == cm.grid(),
                    0 <= i < m && m == cm.cells@.len(),
                    row == &cm.cells@[i as int],
                    0 <= j <= row@.len(),
                    rs == sum_seq(row@.take(j as int)),
                    sum_seq(row@) <= u64::MAX,
                    rs <= sum_seq(row@),
                decreases row@.len() - j,
            {
                proof {
                    assert(row@.take(j + 1).drop_last() =~= row@.take(j as int));
                    assert(row@.take(j + 1).last() == row@[j as int]);
                    lemma_sum_prefix(row@, j + 1);
                }
                rs = rs + row[j];
                j += 1;
            }
            proof {
                assert(row@.take(row@.len() as int) =~= row@);
            }
            total = total + rs;
            correct = correct + row[i];
            i += 1;
        }
        Accuracy { correct, total }
    }
}

/// A prefix of a row sums to at most the whole row.
pub proof fn lemma_sum_prefix(s: Seq<u64>, k: int)
    requires
        0 <= k <= s.len(),
    ensures
        sum_seq(s.take(k)) <= sum_seq(s),
    decreases s.len() - k,
{
    if k == s.len() {
        assert(s.take(k) =~= s);
    } else {
        assert(s.take(k + 1).drop_last() =~= s.take(k));
        lemma_sum_prefix(s, k + 1);
    }
}

} // verus!
