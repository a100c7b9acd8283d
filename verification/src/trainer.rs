//! CART-style decision-tree induction with the Gini-impurity criterion.
//!
//! Everything here is exact integer arithmetic. The Gini impurity of a node
//! with `n` rows is `1 - A/n^2`, where `A` counts the ordered pairs of node
//! rows whose labels agree (`A = sum over classes of count^2`). A candidate
//! split into sides of `nl` and `nr` rows with agreeing-pair counts `al`
//! and `ar` has weighted child impurity `(n - al/nl - ar/nr) / n`, so the
//! best candidate is the one maximizing `al/nl + ar/nr`, a fraction with
//! numerator `al*nr + ar*nl` and denominator `nl*nr`. Fractions are compared
//! by cross-multiplication; ties break to the lowest feature index, then the
//! lowest threshold. A candidate reduces impurity exactly when its fraction
//! exceeds `A/n`.

use crate::dataset::Dataset;
use crate::tree::{TreeClassifier, TreeNode};
use vstd::prelude::*;

verus! {

/// The training set held no row.
#[derive(Debug, Clone, Copy, PartialEq, Eq)]
pub struct TrainingError;

/// How many of the node rows carry label `c`.
pub open spec fn cnt_label(ls: Seq<u64>, rows: Seq<usize>, c: u64) -> nat
    decreases rows.len(),
{
    if rows.len() == 0 {
        0
    } else {
        cnt_label(ls, rows.drop_last(), c) + (if ls[rows.last() as int] == c {
            1nat
        } else {
            0nat
        })
    }
}

/// Over the first `k` node rows, the sum of how many node rows share each
/// one's label: the number of ordered pairs of node rows with equal labels,
/// once `k` reaches the node size.
pub open spec fn agree_upto(ls: Seq<u64>, rows: Seq<usize>, k: int) -> nat
    decreases k,
{
    if k <= 0 {
        0
    } else {
        agree_upto(ls, rows, k - 1) + cnt_label(ls, rows, ls[rows[k - 1] as int])
    }
}

/// The number of ordered pairs of node rows whose labels agree. The Gini
/// impurity of the node is `1 - agree_pairs / len^2`.
pub open spec fn agree_pairs(ls: Seq<u64>, rows: Seq<usize>) -> nat {
    agree_upto(ls, rows, rows.len() as int)
}

/// Whether all node rows share one label.
pub open spec fn is_pure(ls: Seq<u64>, rows: Seq<usize>) -> bool {
    forall|a: int, b: int|
        0 <= a < rows.len() && 0 <= b < rows.len() ==> #[trigger] ls[rows[a] as int]
            == #[trigger] ls[rows[b] as int]
}

/// The most frequent label among the first `k` node rows, ties broken by
/// the lowest class id. (Counts are taken over the whole node.)
pub open spec fn majority_upto(ls: Seq<u64>, rows: Seq<usize>, k: int) -> u64
    decreases k,
{
    if k <= 1 {
        ls[rows[0] as int]
    } else {
        let prev = majority_upto(ls, rows, k - 1);
        let c = ls[rows[k - 1] as int];
        if cnt_label(ls, rows, c) > cnt_label(ls, rows, prev) || (cnt_label(ls, rows, c)
            == cnt_label(ls, rows, prev) && c < prev) {
            c
        } else {
            prev
        }
    }
}

/// The majority label of the node, ties to the lowest class id.
pub open spec fn majority(ls: Seq<u64>, rows: Seq<usize>) -> u64 {
    majority_upto(ls, rows, rows.len() as int)
}

/// The node rows sent left by the candidate (feature `f`, threshold `v`),
/// in order.
pub open spec fn left_rows(fs: Seq<Seq<i64>>, rows: Seq<usize>, f: int, v: i64) -> Seq<usize>
    decreases rows.len(),
{
    if rows.len() == 0 {
        Seq::empty()
    } else {
        let pre = left_rows(fs, rows.drop_last(), f, v);
        if fs[rows.last() as int][f] <= v {
            pre.push(rows.last())
        } else {
            pre
        }
    }
}

/// The node rows sent right, in order.
pub open spec fn right_rows(fs: Seq<Seq<i64>>, rows: Seq<usize>, f: int, v: i64) -> Seq<usize>
    decreases rows.len(),
{
    if rows.len() == 0 {
        Seq::empty()
    } else {
        let pre = right_rows(fs, rows.drop_last(), f, v);
        if fs[rows.last() as int][f] > v {
            pre.push(rows.last())
        } else {
            pre
        }
    }
}

/// A candidate is a feature index and a threshold value present in that
/// feature at the node, with at least one node row strictly above it (so
/// neither side is empty).
pub open spec fn valid_cand(fs: Seq<Seq<i64>>, rows: Seq<usize>, nf: int, f: int, v: i64) -> bool {
    &&& 0 <= f < nf
    &&& exists|q: int| 0 <= q < rows.len() && #[trigger] fs[rows[q] as int][f] == v
    &&& exists|q: int| 0 <= q < rows.len() && #[trigger] fs[rows[q] as int][f] > v
}

/// Numerator of the candidate's quality `al/nl + ar/nr`: maximizing this
/// fraction minimizes the weighted Gini impurity of the two children.
pub open spec fn score_num(ls: Seq<u64>, fs: Seq<Seq<i64>>, rows: Seq<usize>, f: int, v: i64) -> int {
    agree_pairs(ls, left_rows(fs, rows, f, v)) as int * right_rows(fs, rows, f, v).len() as int
        + agree_pairs(ls, right_rows(fs, rows, f, v)) as int * left_rows(fs, rows, f, v).len() as int
}

/// Denominator of the candidate's quality.
pub open spec fn score_den(fs: Seq<Seq<i64>>, rows: Seq<usize>, f: int, v: i64) -> int {
    left_rows(fs, rows, f, v).len() as int * right_rows(fs, rows, f, v).len() as int
}

/// Whether candidate one is strictly preferred to candidate two: a strictly
/// higher quality fraction (compared by cross-multiplication), or an equal
/// one and a lexicographically smaller (feature, threshold) pair.
pub open spec fn strictly_better(
    ls: Seq<u64>,
    fs: Seq<Seq<i64>>,
    rows: Seq<usize>,
    f1: int,
    v1: i64,
    f2: int,
    v2: i64,
) -> bool {
    let n1 = score_num(ls, fs, rows, f1, v1);
    let d1 = score_den(fs, rows, f1, v1);
    let n2 = score_num(ls, fs, rows, f2, v2);
    let d2 = score_den(fs, rows, f2, v2);
    ||| n1 * d2 > n2 * d1
    ||| (n1 * d2 == n2 * d1 && (f1 < f2 || (f1 == f2 && v1 < v2)))
}

/// The candidate every other valid candidate fails to beat: the maximal
/// quality, and among equals the lowest feature index then threshold.
pub open spec fn is_best(
    ls: Seq<u64>,
    fs: Seq<Seq<i64>>,
    rows: Seq<usize>,
    nf: int,
    f: int,
    v: i64,
) -> bool {
    &&& valid_cand(fs, rows, nf, f, v)
    &&& forall|f2: int, v2: i64|
        #[trigger] valid_cand(fs, rows, nf, f2, v2) ==> !strictly_better(
            ls,
            fs,
            rows,
            f2,
            v2,
            f,
            v,
        )
}

/// Whether the candidate strictly reduces impurity: its quality fraction
/// exceeds the parent's `agree_pairs / len`.
pub open spec fn reduces(ls: Seq<u64>, fs: Seq<Seq<i64>>, rows: Seq<usize>, f: int, v: i64) -> bool {
    score_num(ls, fs, rows, f, v) * rows.len() > agree_pairs(ls, rows) * score_den(fs, rows, f, v)
}

/// The tree grown from the given node rows: a leaf carrying the majority
/// label where the node is pure or no candidate reduces impurity, otherwise
/// a split on the best candidate with both children grown recursively. The
/// `gas` bound only serves termination; any value at least the row count
/// gives the same tree.
pub open spec fn train_spec(
    fs: Seq<Seq<i64>>,
    ls: Seq<u64>,
    nf: int,
    rows: Seq<usize>,
    gas: nat,
) -> TreeNode
    decreases gas,
{
    if gas == 0 || is_pure(ls, rows) || !(exists|fv: (int, i64)|
        #[trigger] is_best(ls, fs, rows, nf, fv.0, fv.1) && reduces(ls, fs, rows, fv.0, fv.1)) {
        TreeNode::Leaf { label: majority(ls, rows) }
    } else {
        let fv = choose|fv: (int, i64)|
            #[trigger] is_best(ls, fs, rows, nf, fv.0, fv.1) && reduces(ls, fs, rows, fv.0, fv.1);
        TreeNode::Split {
            feature: fv.0 as usize,
            threshold: fv.1,
            left: Box::new(
                train_spec(fs, ls, nf, left_rows(fs, rows, fv.0, fv.1), (gas - 1) as nat),
            ),
            right: Box::new(
                train_spec(fs, ls, nf, right_rows(fs, rows, fv.0, fv.1), (gas - 1) as nat),
            ),
        }
    }
}

/// The row indices 0 to `n - 1` in order.
pub open spec fn index_rows(n: int) -> Seq<usize> {
    Seq::new(n as nat, |i: int| i as usize)
}

/// The root the trainer grows for a whole dataset.
pub open spec fn fit_root(d: Dataset) -> TreeNode {
    train_spec(d.feats(), d.labs(), d.nfeatures(), index_rows(d.nrows()), d.nrows() as nat)
}

// ---------------------------------------------------------------------
// Facts about the counting and partition functions.
// ---------------------------------------------------------------------

/// A label count never exceeds the node size.
pub proof fn lemma_cnt_label_le(ls: Seq<u64>, rows: Seq<usize>, c: u64)
    ensures
        cnt_label(ls, rows, c) <= rows.len(),
    decreases rows.len(),
{
    if rows.len() > 0 {
        lemma_cnt_label_le(ls, rows.drop_last(), c);
    }
}

/// The two sides of a candidate split the node without loss or overlap.
pub proof fn lemma_lr_partition(fs: Seq<Seq<i64>>, rows: Seq<usize>, f: int, v: i64)
    ensures
        left_rows(fs, rows, f, v).len() + right_rows(fs, rows, f, v).len() == rows.len(),
    decreases rows.len(),
{
    if rows.len() > 0 {
        lemma_lr_partition(fs, rows.drop_last(), f, v);
    }
}

/// Both sides keep only node rows, below any bound the node rows respect.
pub proof fn lemma_lr_elems(fs: Seq<Seq<i64>>, rows: Seq<usize>, f: int, v: i64, bound: int)
    requires
        forall|k: int| 0 <= k < rows.len() ==> (#[trigger] rows[k]) < bound,
    ensures
        forall|j: int|
            0 <= j < left_rows(fs, rows, f, v).len() ==> (#[trigger] left_rows(fs, rows, f, v)[j])
                < bound,
        forall|j: int|
            0 <= j < right_rows(fs, rows, f, v).len() ==> (#[trigger] right_rows(fs, rows, f, v)[j])
                < bound,
    decreases rows.len(),
{
    if rows.len() > 0 {
        assert(forall|k: int|
            0 <= k < rows.drop_last().len() ==> (#[trigger] rows.drop_last()[k]) < bound);
        lemma_lr_elems(fs, rows.drop_last(), f, v, bound);
        assert(rows[rows.len() - 1] < bound);
        let lo = left_rows(fs, rows, f, v);
        let lp = left_rows(fs, rows.drop_last(), f, v);
        assert forall|j: int| 0 <= j < lo.len() implies lo[j] < bound by {
            if j < lp.len() {
                assert(lo[j] == lp[j]);
            } else {
                assert(lo[j] == rows.last());
            }
        }
        let ro = right_rows(fs, rows, f, v);
        let rp = right_rows(fs, rows.drop_last(), f, v);
        assert forall|j: int| 0 <= j < ro.len() implies ro[j] < bound by {
            if j < rp.len() {
                assert(ro[j] == rp[j]);
            } else {
                assert(ro[j] == rows.last());
            }
        }
    }
}

/// A node row at most the threshold puts something on the left side.
pub proof fn lemma_left_nonempty(fs: Seq<Seq<i64>>, rows: Seq<usize>, f: int, v: i64, q: int)
    requires
        0 <= q < rows.len(),
        fs[rows[q] as int][f] <= v,
    ensures
        left_rows(fs, rows, f, v).len() >= 1,
    decreases rows.len(),
{
    if q == rows.len() - 1 {
    } else {
        assert(rows.drop_last()[q] == rows[q]);
        lemma_left_nonempty(fs, rows.drop_last(), f, v, q);
    }
}

/// A node row above the threshold puts something on the right side.
pub proof fn lemma_right_nonempty(fs: Seq<Seq<i64>>, rows: Seq<usize>, f: int, v: i64, q: int)
    requires
        0 <= q < rows.len(),
        fs[rows[q] as int][f] > v,
    ensures
        right_rows(fs, rows, f, v).len() >= 1,
    decreases rows.len(),
{
    if q == rows.len() - 1 {
    } else {
        assert(rows.drop_last()[q] == rows[q]);
        lemma_right_nonempty(fs, rows.drop_last(), f, v, q);
    }
}

/// A non-empty right side names a node row above the threshold.
pub proof fn lemma_right_witness(fs: Seq<Seq<i64>>, rows: Seq<usize>, f: int, v: i64)
    requires
        right_rows(fs, rows, f, v).len() >= 1,
    ensures
        exists|q: int| 0 <= q < rows.len() && #[trigger] fs[rows[q] as int][f] > v,
    decreases rows.len(),
{
    if rows.len() > 0 {
        if fs[rows.last() as int][f] > v {
            assert(0 <= rows.len() - 1 < rows.len() && fs[rows[rows.len() - 1] as int][f] > v);
        } else {
            lemma_right_witness(fs, rows.drop_last(), f, v);
            let q = choose|q: int|
                0 <= q < rows.drop_last().len() && #[trigger] fs[rows.drop_last()[q] as int][f]
                    > v;
            assert(rows[q] == rows.drop_last()[q]);
            assert(0 <= q < rows.len() && fs[rows[q] as int][f] > v);
        }
    }
}

/// The running agreeing-pair count is at most `k` times the node size.
pub proof fn lemma_agree_upto_bound(ls: Seq<u64>, rows: Seq<usize>, k: int)
    requires
        0 <= k <= rows.len(),
    ensures
        agree_upto(ls, rows, k) <= k * rows.len(),
    decreases k,
{
    if k > 0 {
        lemma_agree_upto_bound(ls, rows, k - 1);
        lemma_cnt_label_le(ls, rows, ls[rows[k - 1] as int]);
        assert((k - 1) * rows.len() + rows.len() == k * rows.len()) by (nonlinear_arith);
    }
}

/// Score numerator and denominator are non-negative and bounded by the cube
/// and square of the node size.
pub proof fn lemma_score_bounds(ls: Seq<u64>, fs: Seq<Seq<i64>>, rows: Seq<usize>, f: int, v: i64)
    ensures
        0 <= score_num(ls, fs, rows, f, v),
        score_num(ls, fs, rows, f, v) <= rows.len() * rows.len() * rows.len(),
        0 <= score_den(fs, rows, f, v),
        score_den(fs, rows, f, v) <= rows.len() * rows.len(),
{
    let l = left_rows(fs, rows, f, v);
    let r = right_rows(fs, rows, f, v);
    let n = rows.len() as int;
    lemma_lr_partition(fs, rows, f, v);
    lemma_agree_upto_bound(ls, l, l.len() as int);
    lemma_agree_upto_bound(ls, r, r.len() as int);
    assert(agree_pairs(ls, l) * r.len() + agree_pairs(ls, r) * l.len() <= n * n * n)
        by (nonlinear_arith)
        requires
            0 <= agree_pairs(ls, l) <= l.len() * l.len(),
            0 <= agree_pairs(ls, r) <= r.len() * r.len(),
            0 <= l.len(),
            0 <= r.len(),
            l.len() + r.len() == n,
    ;
    assert(agree_pairs(ls, l) * r.len() + agree_pairs(ls, r) * l.len() >= 0) by (nonlinear_arith)
        requires
            0 <= agree_pairs(ls, l),
            0 <= agree_pairs(ls, r),
            0 <= l.len(),
            0 <= r.len(),
    ;
    assert(0 <= l.len() * r.len() && l.len() * r.len() <= n * n) by (nonlinear_arith)
        requires
            0 <= l.len() <= n,
            0 <= r.len() <= n,
    ;
}

/// A valid candidate has at least one row on each side.
pub proof fn lemma_valid_sides(fs: Seq<Seq<i64>>, rows: Seq<usize>, nf: int, f: int, v: i64)
    requires
        valid_cand(fs, rows, nf, f, v),
    ensures
        left_rows(fs, rows, f, v).len() >= 1,
        right_rows(fs, rows, f, v).len() >= 1,
        left_rows(fs, rows, f, v).len() + right_rows(fs, rows, f, v).len() == rows.len(),
        score_den(fs, rows, f, v) >= 1,
{
    let ql = choose|q: int| 0 <= q < rows.len() && #[trigger] fs[rows[q] as int][f] == v;
    lemma_left_nonempty(fs, rows, f, v, ql);
    let qr = choose|q: int| 0 <= q < rows.len() && #[trigger] fs[rows[q] as int][f] > v;
    lemma_right_nonempty(fs, rows, f, v, qr);
    lemma_lr_partition(fs, rows, f, v);
    let dl = left_rows(fs, rows, f, v).len() as int;
    let dr = right_rows(fs, rows, f, v).len() as int;
    assert(dl * dr >= 1) by (nonlinear_arith)
        requires
            dl >= 1,
            dr >= 1,
    ;
}

/// Two best candidates are the same candidate: the quality comparison is a
/// total preorder and the lexicographic tie-break a total order.
pub proof fn lemma_best_unique(
    ls: Seq<u64>,
    fs: Seq<Seq<i64>>,
    rows: Seq<usize>,
    nf: int,
    f1: int,
    v1: i64,
    f2: int,
    v2: i64,
)
    requires
        is_best(ls, fs, rows, nf, f1, v1),
        is_best(ls, fs, rows, nf, f2, v2),
    ensures
        f1 == f2 && v1 == v2,
{
    assert(!strictly_better(ls, fs, rows, f1, v1, f2, v2));
    assert(!strictly_better(ls, fs, rows, f2, v2, f1, v1));
}

/// Any gas at least the node size grows the same tree.
pub proof fn lemma_train_gas(
    fs: Seq<Seq<i64>>,
    ls: Seq<u64>,
    nf: int,
    rows: Seq<usize>,
    g1: nat,
    g2: nat,
)
    requires
        rows.len() <= g1,
        rows.len() <= g2,
    ensures
        train_spec(fs, ls, nf, rows, g1) == train_spec(fs, ls, nf, rows, g2),
    decreases g1 + g2,
{
    if rows.len() == 0 {
        if g1 == 0 || g2 == 0 {
            assert(is_pure(ls, rows));
        }
    } else {
        let leaf1 = g1 == 0 || is_pure(ls, rows) || !(exists|fv: (int, i64)|
            #[trigger] is_best(ls, fs, rows, nf, fv.0, fv.1) && reduces(ls, fs, rows, fv.0, fv.1));
        let leaf2 = g2 == 0 || is_pure(ls, rows) || !(exists|fv: (int, i64)|
            #[trigger] is_best(ls, fs, rows, nf, fv.0, fv.1) && reduces(ls, fs, rows, fv.0, fv.1));
        if !leaf1 && !leaf2 {
            let fv = choose|fv: (int, i64)|
                #[trigger] is_best(ls, fs, rows, nf, fv.0, fv.1) && reduces(
                    ls,
                    fs,
                    rows,
                    fv.0,
                    fv.1,
                );
            lemma_valid_sides(fs, rows, nf, fv.0, fv.1);
            lemma_train_gas(
                fs,
                ls,
                nf,
                left_rows(fs, rows, fv.0, fv.1),
                (g1 - 1) as nat,
                (g2 - 1) as nat,
            );
            lemma_train_gas(
                fs,
                ls,
                nf,
                right_rows(fs, rows, fv.0, fv.1),
                (g1 - 1) as nat,
                (g2 - 1) as nat,
            );
        }
    }
}

/// Candidate one beats candidate two and candidate two beats candidate
/// three: then candidate one beats candidate three.
pub proof fn lemma_sb_trans(
    ls: Seq<u64>,
    fs: Seq<Seq<i64>>,
    rows: Seq<usize>,
    nf: int,
    fa: int,
    va: i64,
    fb: int,
    vb: i64,
    fc: int,
    vc: i64,
)
    requires
        valid_cand(fs, rows, nf, fa, va),
        valid_cand(fs, rows, nf, fb, vb),
        valid_cand(fs, rows, nf, fc, vc),
        strictly_better(ls, fs, rows, fa, va, fb, vb),
        strictly_better(ls, fs, rows, fb, vb, fc, vc),
    ensures
        strictly_better(ls, fs, rows, fa, va, fc, vc),
{
    lemma_valid_sides(fs, rows, nf, fa, va);
    lemma_valid_sides(fs, rows, nf, fb, vb);
    lemma_valid_sides(fs, rows, nf, fc, vc);
    let na = score_num(ls, fs, rows, fa, va);
    let da = score_den(fs, rows, fa, va);
    let nb = score_num(ls, fs, rows, fb, vb);
    let db = score_den(fs, rows, fb, vb);
    let nc = score_num(ls, fs, rows, fc, vc);
    let dc = score_den(fs, rows, fc, vc);
    if na * db > nb * da {
        if nb * dc > nc * db {
            assert(na * dc > nc * da) by (nonlinear_arith)
                requires
                    na * db > nb * da,
                    nb * dc > nc * db,
                    da >= 1,
                    db >= 1,
                    dc >= 1,
            ;
        } else {
            assert(na * dc > nc * da) by (nonlinear_arith)
                requires
                    na * db > nb * da,
                    nb * dc == nc * db,
                    da >= 1,
                    db >= 1,
                    dc >= 1,
            ;
        }
    } else {
        if nb * dc > nc * db {
            assert(na * dc > nc * da) by (nonlinear_arith)
                requires
                    na * db == nb * da,
                    nb * dc > nc * db,
                    da >= 1,
                    db >= 1,
                    dc >= 1,
            ;
        } else {
            assert(na * dc == nc * da) by (nonlinear_arith)
                requires
                    na * db == nb * da,
                    nb * dc == nc * db,
                    da >= 1,
                    db >= 1,
                    dc >= 1,
            ;
        }
    }
}

/// Every node row stays inside the dataset.
pub open spec fn rows_ok(d: Dataset, rows: Seq<usize>) -> bool {
    forall|k: int| 0 <= k < rows.len() ==> (#[trigger] rows[k]) < d.nrows()
}

/// The candidates the scan has looked at: every threshold of the features
/// already finished, and the thresholds of the first `k` node rows in the
/// feature in hand.
spec fn scanned(fs: Seq<Seq<i64>>, rows: Seq<usize>, fi: int, k: int, f: int, v: i64) -> bool {
    ||| (0 <= f < fi && exists|q: int| 0 <= q < rows.len() && #[trigger] fs[rows[q] as int][f] == v)
    ||| (f == fi && exists|q: int| 0 <= q < k && #[trigger] fs[rows[q] as int][f] == v)
}

/// What the scan knows: nothing scanned is valid, or the held candidate is
/// valid, scanned, carries its exact scores, and no scanned valid candidate
/// beats it.
spec fn best_inv(
    ls: Seq<u64>,
    fs: Seq<Seq<i64>>,
    rows: Seq<usize>,
    nf: int,
    fi: int,
    k: int,
    best: Option<(usize, i64, u128, u128)>,
) -> bool {
    match best {
        None => forall|f: int, v: i64|
            #[trigger] scanned(fs, rows, fi, k, f, v) ==> !valid_cand(fs, rows, nf, f, v),
        Some(b) => {
            &&& valid_cand(fs, rows, nf, b.0 as int, b.1)
            &&& scanned(fs, rows, fi, k, b.0 as int, b.1)
            &&& b.2 as int == score_num(ls, fs, rows, b.0 as int, b.1)
            &&& b.3 as int == score_den(fs, rows, b.0 as int, b.1)
            &&& forall|f: int, v: i64|
                #[trigger] scanned(fs, rows, fi, k, f, v) && valid_cand(fs, rows, nf, f, v)
                    ==> !strictly_better(ls, fs, rows, f, v, b.0 as int, b.1)
        },
    }
}

/// Counts the node rows carrying label `c`.
fn count_label_in(d: &Dataset, rows: &Vec<usize>, c: u64) -> (r: usize)
    requires
        d.wf(),
        rows_ok(*d, rows@),
    ensures
        r == cnt_label(d.labs(), rows@, c),
{
    let mut cnt: usize = 0;
    let mut k: usize = 0;
    while k < rows.len()
        invariant
            d.wf(),
            rows_ok(*d, rows@),
            0 <= k <= rows@.len(),
            cnt <= k,
            cnt == cnt_label(d.labs(), rows@.take(k as int), c),
        decreases rows@.len() - k,
    {
        proof {
            assert(rows@.take(k + 1).drop_last() =~= rows@.take(k as int));
            assert(rows@.take(k + 1).last() == rows@[k as int]);
        }
        let idx = rows[k];
        if d.labels[idx] == c {
            cnt += 1;
        }
        k += 1;
    }
    proof {
        assert(rows@.take(rows@.len() as int) =~= rows@);
    }
    cnt
}

/// The agreeing-pair count of the node.
fn agree_pairs_exec(d: &Dataset, rows: &Vec<usize>) -> (r: u64)
    requires
        d.wf(),
        rows_ok(*d, rows@),
        rows@.len() <= crate::MAX_ROWS,
    ensures
        r == agree_pairs(d.labs(), rows@),
{
    let mut acc: u64 = 0;
    let mut k: usize = 0;
    while k < rows.len()
        invariant
            d.wf(),
            rows_ok(*d, rows@),
            rows@.len() <= crate::MAX_ROWS,
            0 <= k <= rows@.len(),
            acc == agree_upto(d.labs(), rows@, k as int),
            acc <= k * rows@.len(),
        decreases rows@.len() - k,
    {
        let idx = rows[k];
        let c = d.labels[idx];
        let cnt = count_label_in(d, rows, c);
        proof {
            lemma_cnt_label_le(d.labs(), rows@, c);
            assert((k as int + 1) * (rows@.len() as int) <= 16777216 * 16777216 && acc as int
                + cnt as int <= (k as int + 1) * (rows@.len() as int)) by (nonlinear_arith)
                requires
                    acc as int <= (k as int) * (rows@.len() as int),
                    cnt as int <= rows@.len() as int,
                    0 <= k as int,
                    (k as int) < rows@.len() as int,
                    rows@.len() as int <= 16777216,
            ;
        }
        acc = acc + (cnt as u64);
        k += 1;
    }
    acc
}

/// Splits the node rows on one candidate.
fn partition_exec(d: &Dataset, rows: &Vec<usize>, f: usize, v: i64) -> (r: (Vec<usize>, Vec<usize>))
    requires
        d.wf(),
        rows_ok(*d, rows@),
        f < d.nfeatures(),
    ensures
        r.0@ == left_rows(d.feats(), rows@, f as int, v),
        r.1@ == right_rows(d.feats(), rows@, f as int, v),
{
    let mut lv: Vec<usize> = Vec::new();
    let mut rv: Vec<usize> = Vec::new();
    let mut k: usize = 0;
    while k < rows.len()
        invariant
            d.wf(),
            rows_ok(*d, rows@),
            f < d.nfeatures(),
            0 <= k <= rows@.len(),
            lv@ == left_rows(d.feats(), rows@.take(k as int), f as int, v),
            rv@ == right_rows(d.feats(), rows@.take(k as int), f as int, v),
        decreases rows@.len() - k,
    {
        proof {
            assert(rows@.take(k + 1).drop_last() =~= rows@.take(k as int));
            assert(rows@.take(k + 1).last() == rows@[k as int]);
        }
        let idx = rows[k];
        if d.features[idx][f] <= v {
            lv.push(idx);
        } else {
            rv.push(idx);
        }
        k += 1;
    }
    proof {
        assert(rows@.take(rows@.len() as int) =~= rows@);
    }
    (lv, rv)
}

/// The majority label of the node, ties to the lowest class id.
fn majority_exec(d: &Dataset, rows: &Vec<usize>) -> (r: u64)
    requires
        d.wf(),
        rows_ok(*d, rows@),
        rows@.len() >= 1,
    ensures
        r == majority(d.labs(), rows@),
{
    let mut lab = d.labels[rows[0]];
    let mut bc = count_label_in(d, rows, lab);
    let mut k: usize = 1;
    while k < rows.len()
        invariant
            d.wf(),
            rows_ok(*d, rows@),
            1 <= k <= rows@.len(),
            lab == majority_upto(d.labs(), rows@, k as int),
            bc == cnt_label(d.labs(), rows@, lab),
        decreases rows@.len() - k,
    {
        let c = d.labels[rows[k]];
        let cc = count_label_in(d, rows, c);
        if cc > bc || (cc == bc && c < lab) {
            lab = c;
            bc = cc;
        }
        k += 1;
    }
    lab
}

/// Whether all node rows share one label.
fn is_pure_exec(d: &Dataset, rows: &Vec<usize>) -> (r: bool)
    requires
        d.wf(),
        rows_ok(*d, rows@),
        rows@.len() >= 1,
    ensures
        r == is_pure(d.labs(), rows@),
{
    let first = d.labels[rows[0]];
    let mut k: usize = 1;
    while k < rows.len()
        invariant
            d.wf(),
            rows_ok(*d, rows@),
            1 <= k <= rows@.len(),
            first == d.labs()[rows@[0] as int],
            forall|q: int| 0 <= q < k ==> d.labs()[#[trigger] rows@[q] as int] == first,
        decreases rows@.len() - k,
    {
        if d.labels[rows[k]] != first {
            proof {
                assert(d.labs()[rows@[0] as int] != d.labs()[rows@[k as int] as int]);
            }
            return false;
        }
        k += 1;
    }
    true
}

/// One more node row scanned: the scanned set grows by at most that row's
/// threshold in the feature in hand.
proof fn lemma_scanned_step(
    fs: Seq<Seq<i64>>,
    rows: Seq<usize>,
    fi: int,
    k: int,
    v: i64,
    f2: int,
    v2: i64,
)
    requires
        0 <= k < rows.len(),
        v == fs[rows[k] as int][fi],
        scanned(fs, rows, fi, k + 1, f2, v2),
    ensures
        scanned(fs, rows, fi, k, f2, v2) || (f2 == fi && v2 == v),
{
    if f2 == fi && !scanned(fs, rows, fi, k, f2, v2) {
        let q = choose|q: int| 0 <= q < k + 1 && #[trigger] fs[rows[q] as int][f2] == v2;
        assert(q == k);
    }
}

/// Scanning more loses nothing.
proof fn lemma_scanned_mono(
    fs: Seq<Seq<i64>>,
    rows: Seq<usize>,
    fi: int,
    k: int,
    f2: int,
    v2: i64,
)
    requires
        0 <= k,
        scanned(fs, rows, fi, k, f2, v2),
    ensures
        scanned(fs, rows, fi, k + 1, f2, v2),
{
    if !(0 <= f2 < fi) {
        let q = choose|q: int| 0 <= q < k && #[trigger] fs[rows[q] as int][f2] == v2;
        assert(0 <= q < k + 1 && fs[rows[q] as int][f2] == v2);
    }
}

/// A finished feature folds into the set of whole features scanned.
proof fn lemma_scanned_shift(fs: Seq<Seq<i64>>, rows: Seq<usize>, fi: int, f2: int, v2: i64)
    requires
        0 <= fi,
    ensures
        scanned(fs, rows, fi, rows.len() as int, f2, v2) <==> scanned(fs, rows, fi + 1, 0, f2, v2),
{
    if scanned(fs, rows, fi, rows.len() as int, f2, v2) && !(0 <= f2 < fi) {
        let q = choose|q: int|
            0 <= q < rows.len() as int && #[trigger] fs[rows[q] as int][f2] == v2;
        assert(0 <= q < rows.len() && fs[rows[q] as int][f2] == v2);
        assert(0 <= f2 < fi + 1);
    }
    if scanned(fs, rows, fi + 1, 0, f2, v2) && !(0 <= f2 < fi) {
        let q = choose|q: int| 0 <= q < rows.len() && #[trigger] fs[rows[q] as int][f2] == v2;
        assert(0 <= q < rows.len() as int && fs[rows[q] as int][f2] == v2);
    }
}

/// Every valid candidate is scanned once every feature is finished.
proof fn lemma_scanned_all(
    fs: Seq<Seq<i64>>,
    rows: Seq<usize>,
    nf: int,
    f2: int,
    v2: i64,
)
    requires
        valid_cand(fs, rows, nf, f2, v2),
    ensures
        scanned(fs, rows, nf, 0, f2, v2),
{
    let q = choose|q: int| 0 <= q < rows.len() && #[trigger] fs[rows[q] as int][f2] == v2;
    assert(0 <= q < rows.len() && fs[rows[q] as int][f2] == v2);
}

/// Scans every candidate (each feature, each threshold present in it at the
/// node) and returns the best with its scores, or nothing where no candidate
/// is valid.
fn find_best(d: &Dataset, rows: &Vec<usize>) -> (r: Option<(usize, i64, u128, u128)>)
    requires
        d.wf(),
        rows_ok(*d, rows@),
        1 <= rows@.len() <= crate::MAX_ROWS,
    ensures
        ({
            let fs = d.feats();
            let ls = d.labs();
            let nf = d.nfeatures();
            match r {
                None => !(exists|fv: (int, i64)| #[trigger] valid_cand(fs, rows@, nf, fv.0, fv.1)),
                Some(b) => {
                    &&& is_best(ls, fs, rows@, nf, b.0 as int, b.1)
                    &&& b.2 as int == score_num(ls, fs, rows@, b.0 as int, b.1)
                    &&& b.3 as int == score_den(fs, rows@, b.0 as int, b.1)
                },
            }
        }),
{
    let ghost fs = d.feats();
    let ghost ls = d.labs();
    let ghost nf = d.nfeatures();
    let nfx = d.feature_names.len();
    let n = rows.len();
    let mut best: Option<(usize, i64, u128, u128)> = None;
    let mut fi: usize = 0;
    while fi < nfx
        invariant
            d.wf(),
            rows_ok(*d, rows@),
            1 <= rows@.len() <= crate::MAX_ROWS,
            fs == d.feats(),
            ls == d.labs(),
            nf == d.nfeatures(),
            nfx as int == nf,
            n == rows@.len(),
            0 <= fi <= nfx,
            best_inv(ls, fs, rows@, nf, fi as int, 0, best),
        decreases nfx - fi,
    {
        let mut k: usize = 0;
        while k < n
            invariant
                d.wf(),
                rows_ok(*d, rows@),
                1 <= rows@.len() <= crate::MAX_ROWS,
                fs == d.feats(),
                ls == d.labs(),
                nf == d.nfeatures(),
                nfx as int == nf,
                n == rows@.len(),
                0 <= fi < nfx,
                0 <= k <= n,
                best_inv(ls, fs, rows@, nf, fi as int, k as int, best),
            decreases n - k,
        {
            let idx = rows[k];
            let v = d.features[idx][fi];
            assert(v == fs[rows@[k as int] as int][fi as int]);
            let pr = partition_exec(d, rows, fi, v);
            let lv = pr.0;
            let rv = pr.1;
            if rv.len() == 0 {
                proof {
                    assert(!valid_cand(fs, rows@, nf, fi as int, v)) by {
                        if valid_cand(fs, rows@, nf, fi as int, v) {
                            let q = choose|q: int|
                                0 <= q < rows@.len() && #[trigger] fs[rows@[q] as int][fi as int]
                                    > v;
                            lemma_right_nonempty(fs, rows@, fi as int, v, q);
                        }
                    }
                    match best {
                        None => {
                            assert forall|f2: int, v2: i64|
                                scanned(fs, rows@, fi as int, k + 1, f2, v2) implies !valid_cand(
                                fs,
                                rows@,
                                nf,
                                f2,
                                v2,
                            ) by {
                                lemma_scanned_step(fs, rows@, fi as int, k as int, v, f2, v2);
                            }
                        },
                        Some(b) => {
                            lemma_scanned_mono(fs, rows@, fi as int, k as int, b.0 as int, b.1);
                            assert forall|f2: int, v2: i64|
                                scanned(fs, rows@, fi as int, k + 1, f2, v2) && valid_cand(
                                fs,
                                rows@,
                                nf,
                                f2,
                                v2,
                            ) implies !strictly_better(ls, fs, rows@, f2, v2, b.0 as int, b.1) by {
                                lemma_scanned_step(fs, rows@, fi as int, k as int, v, f2, v2);
                            }
                        },
                    }
                    assert(best_inv(ls, fs, rows@, nf, fi as int, k + 1, best));
                }
            } else {
                proof {
                    assert(valid_cand(fs, rows@, nf, fi as int, v)) by {
                        assert(0 <= k < rows@.len() && fs[rows@[k as int] as int][fi as int] == v);
                        lemma_right_witness(fs, rows@, fi as int, v);
                    }
                    lemma_lr_partition(fs, rows@, fi as int, v);
                    lemma_lr_elems(fs, rows@, fi as int, v, d.nrows());
                }
                let al = agree_pairs_exec(d, &lv);
                let ar = agree_pairs_exec(d, &rv);
                let nl = lv.len();
                let nr = rv.len();
                proof {
                    lemma_agree_upto_bound(ls, lv@, lv@.len() as int);
                    lemma_agree_upto_bound(ls, rv@, rv@.len() as int);
                    assert(al as int * (nr as int) >= 0 && ar as int * (nl as int) >= 0 && al
                        as int * (nr as int) <= 16777216 * 16777216 * 16777216 && ar as int * (nl
                        as int) <= 16777216 * 16777216 * 16777216 && (nl as int) * (nr as int)
                        <= 16777216 * 16777216) by (nonlinear_arith)
                        requires
                            0 <= al as int <= (nl as int) * (nl as int),
                            0 <= ar as int <= (nr as int) * (nr as int),
                            0 <= nl as int,
                            0 <= nr as int,
                            (nl as int) + (nr as int) == rows@.len() as int,
                            rows@.len() as int <= 16777216,
                    ;
                }
                let num: u128 = (al as u128) * (nr as u128) + (ar as u128) * (nl as u128);
                let den: u128 = (nl as u128) * (nr as u128);
                assert(num as int == score_num(ls, fs, rows@, fi as int, v));
                assert(den as int == score_den(fs, rows@, fi as int, v));
                let take_it: bool = match &best {
                    None => true,
                    Some(b) => {
                        proof {
                            lemma_score_bounds(ls, fs, rows@, b.0 as int, b.1);
                            lemma_score_bounds(ls, fs, rows@, fi as int, v);
                            assert(num as int * (b.3 as int) <= 16777216 * 16777216 * 16777216
                                * 16777216 * 16777216 && b.2 as int * (den as int) <= 16777216
                                * 16777216 * 16777216 * 16777216 * 16777216) by (nonlinear_arith)
                                requires
                                    0 <= num as int <= (rows@.len() as int) * (rows@.len() as int)
                                        * (rows@.len() as int),
                                    0 <= b.2 as int <= (rows@.len() as int) * (rows@.len() as int)
                                        * (rows@.len() as int),
                                    0 <= den as int <= (rows@.len() as int) * (rows@.len() as int),
                                    0 <= b.3 as int <= (rows@.len() as int) * (rows@.len() as int),
                                    rows@.len() as int <= 16777216,
                            ;
                        }
                        let better = num * b.3 > b.2 * den || (num * b.3 == b.2 * den && (fi < b.0
                            || (fi == b.0 && v < b.1)));
                        assert(better == strictly_better(
                            ls,
                            fs,
                            rows@,
                            fi as int,
                            v,
                            b.0 as int,
                            b.1,
                        ));
                        better
                    },
                };
                if take_it {
                    proof {
                        assert(!strictly_better(ls, fs, rows@, fi as int, v, fi as int, v));
                        match best {
                            None => {
                                assert forall|f2: int, v2: i64|
                                    scanned(fs, rows@, fi as int, k + 1, f2, v2) && valid_cand(
                                    fs,
                                    rows@,
                                    nf,
                                    f2,
                                    v2,
                                ) implies !strictly_better(ls, fs, rows@, f2, v2, fi as int, v) by {
                                    lemma_scanned_step(fs, rows@, fi as int, k as int, v, f2, v2);
                                }
                            },
                            Some(b) => {
                                assert forall|f2: int, v2: i64|
                                    scanned(fs, rows@, fi as int, k + 1, f2, v2) && valid_cand(
                                    fs,
                                    rows@,
                                    nf,
                                    f2,
                                    v2,
                                ) implies !strictly_better(ls, fs, rows@, f2, v2, fi as int, v) by {
                                    lemma_scanned_step(fs, rows@, fi as int, k as int, v, f2, v2);
                                    if scanned(fs, rows@, fi as int, k as int, f2, v2)
                                        && strictly_better(ls, fs, rows@, f2, v2, fi as int, v) {
                                        lemma_sb_trans(
                                            ls,
                                            fs,
                                            rows@,
                                            nf,
                                            f2,
                                            v2,
                                            fi as int,
                                            v,
                                            b.0 as int,
                                            b.1,
                                        );
                                    }
                                }
                            },
                        }
                    }
                    best = Some((fi, v, num, den));
                    proof {
                        assert(scanned(fs, rows@, fi as int, k + 1, fi as int, v)) by {
                            assert(0 <= k < k + 1 && fs[rows@[k as int] as int][fi as int] == v);
                        }
                        assert(best_inv(ls, fs, rows@, nf, fi as int, k + 1, best));
                    }
                } else {
                    proof {
                        let b = best->0;
                        lemma_scanned_mono(fs, rows@, fi as int, k as int, b.0 as int, b.1);
                        assert forall|f2: int, v2: i64|
                            scanned(fs, rows@, fi as int, k + 1, f2, v2) && valid_cand(
                            fs,
                            rows@,
                            nf,
                            f2,
                            v2,
                        ) implies !strictly_better(ls, fs, rows@, f2, v2, b.0 as int, b.1) by {
                            lemma_scanned_step(fs, rows@, fi as int, k as int, v, f2, v2);
                        }
                        assert(best_inv(ls, fs, rows@, nf, fi as int, k + 1, best));
                    }
                }
            }
            k += 1;
        }
        proof {
            match best {
                None => {
                    assert forall|f2: int, v2: i64|
                        scanned(fs, rows@, fi + 1, 0, f2, v2) implies !valid_cand(
                        fs,
                        rows@,
                        nf,
                        f2,
                        v2,
                    ) by {
                        lemma_scanned_shift(fs, rows@, fi as int, f2, v2);
                    }
                },
                Some(b) => {
                    lemma_scanned_shift(fs, rows@, fi as int, b.0 as int, b.1);
                    assert forall|f2: int, v2: i64|
                        scanned(fs, rows@, fi + 1, 0, f2, v2) && valid_cand(fs, rows@, nf, f2, v2)
                        implies !strictly_better(ls, fs, rows@, f2, v2, b.0 as int, b.1) by {
                        lemma_scanned_shift(fs, rows@, fi as int, f2, v2);
                    }
                },
            }
            assert(best_inv(ls, fs, rows@, nf, fi + 1, 0, best));
        }
        fi += 1;
    }
    proof {
        match best {
            None => {
                assert forall|fv: (int, i64)| !valid_cand(fs, rows@, nf, fv.0, fv.1) by {
                    if valid_cand(fs, rows@, nf, fv.0, fv.1) {
                        lemma_scanned_all(fs, rows@, nf, fv.0, fv.1);
                    }
                }
            },
            Some(b) => {
                assert forall|f2: int, v2: i64|
                    valid_cand(fs, rows@, nf, f2, v2) implies !strictly_better(
                    ls,
                    fs,
                    rows@,
                    f2,
                    v2,
                    b.0 as int,
                    b.1,
                ) by {
                    lemma_scanned_all(fs, rows@, nf, f2, v2);
                }
            },
        }
    }
    best
}

/// Grows the tree for one node.
fn build(d: &Dataset, rows: Vec<usize>) -> (r: TreeNode)
    requires
        d.wf(),
        rows_ok(*d, rows@),
        1 <= rows@.len() <= crate::MAX_ROWS,
    ensures
        r == train_spec(d.feats(), d.labs(), d.nfeatures(), rows@, rows@.len() as nat),
        r.feat_wf(d.nfeatures()),
    decreases rows@.len(),
{
    let ghost fs = d.feats();
    let ghost ls = d.labs();
    let ghost nf = d.nfeatures();
    let ghost gas = rows@.len() as nat;
    let maj = majority_exec(d, &rows);
    if is_pure_exec(d, &rows) {
        return TreeNode::Leaf { label: maj };
    }
    match find_best(d, &rows) {
        None => {
            proof {
                assert forall|fv: (int, i64)|
                    !(#[trigger] is_best(ls, fs, rows@, nf, fv.0, fv.1) && reduces(
                        ls,
                        fs,
                        rows@,
                        fv.0,
                        fv.1,
                    )) by {
                    if is_best(ls, fs, rows@, nf, fv.0, fv.1) {
                        assert(valid_cand(fs, rows@, nf, fv.0, fv.1));
                    }
                }
            }
            TreeNode::Leaf { label: maj }
        },
        Some(b) => {
            let f = b.0;
            let v = b.1;
            let num = b.2;
            let den = b.3;
            let sp = agree_pairs_exec(d, &rows);
            proof {
                lemma_score_bounds(ls, fs, rows@, f as int, v);
                lemma_agree_upto_bound(ls, rows@, rows@.len() as int);
                assert(num as int * (rows@.len() as int) <= 16777216 * 16777216 * 16777216
                    * 16777216 && sp as int * (den as int) <= 16777216 * 16777216 * 16777216
                    * 16777216) by (nonlinear_arith)
                    requires
                        0 <= num as int <= (rows@.len() as int) * (rows@.len() as int) * (rows@.len()
                            as int),
                        0 <= den as int <= (rows@.len() as int) * (rows@.len() as int),
                        0 <= sp as int <= (rows@.len() as int) * (rows@.len() as int),
                        rows@.len() as int <= 16777216,
                ;
            }
            if num * (rows.len() as u128) > (sp as u128) * den {
                assert(reduces(ls, fs, rows@, f as int, v));
                proof {
                    assert(is_best(ls, fs, rows@, nf, f as int, v) && reduces(
                        ls,
                        fs,
                        rows@,
                        f as int,
                        v,
                    ));
                    let fvw = ((f as int), v);
                    assert(is_best(ls, fs, rows@, nf, fvw.0, fvw.1) && reduces(
                        ls,
                        fs,
                        rows@,
                        fvw.0,
                        fvw.1,
                    ));
                    let fvc = choose|fv: (int, i64)|
                        #[trigger] is_best(ls, fs, rows@, nf, fv.0, fv.1) && reduces(
                            ls,
                            fs,
                            rows@,
                            fv.0,
                            fv.1,
                        );
                    lemma_best_unique(ls, fs, rows@, nf, fvc.0, fvc.1, f as int, v);
                    lemma_valid_sides(fs, rows@, nf, f as int, v);
                    lemma_lr_elems(fs, rows@, f as int, v, d.nrows());
                }
                let pr = partition_exec(d, &rows, f, v);
                let lt = build(d, pr.0);
                let rt = build(d, pr.1);
                proof {
                    lemma_train_gas(
                        fs,
                        ls,
                        nf,
                        left_rows(fs, rows@, f as int, v),
                        left_rows(fs, rows@, f as int, v).len(),
                        (gas - 1) as nat,
                    );
                    lemma_train_gas(
                        fs,
                        ls,
                        nf,
                        right_rows(fs, rows@, f as int, v),
                        right_rows(fs, rows@, f as int, v).len(),
                        (gas - 1) as nat,
                    );
                }
                TreeNode::Split { feature: f, threshold: v, left: Box::new(lt), right: Box::new(rt) }
            } else {
                proof {
                    assert(!reduces(ls, fs, rows@, f as int, v));
                    assert forall|fv: (int, i64)|
                        !(#[trigger] is_best(ls, fs, rows@, nf, fv.0, fv.1) && reduces(
                            ls,
                            fs,
                            rows@,
                            fv.0,
                            fv.1,
                        )) by {
                        if is_best(ls, fs, rows@, nf, fv.0, fv.1) && reduces(
                            ls,
                            fs,
                            rows@,
                            fv.0,
                            fv.1,
                        ) {
                            lemma_best_unique(ls, fs, rows@, nf, fv.0, fv.1, f as int, v);
                        }
                    }
                }
                TreeNode::Leaf { label: maj }
            }
        },
    }
}

/// Induces a decision tree from a training dataset.
pub struct TreeTrainer;

impl TreeTrainer {
    /// Trains on the whole dataset. Fails exactly when the dataset has no
    /// row; otherwise the returned classifier is the tree `fit_root` names —
    /// a function of the dataset alone, so training is deterministic.
    pub fn fit(d: &Dataset) -> (r: Result<TreeClassifier, TrainingError>)
        requires
            d.wf(),
            d.nrows() <= crate::MAX_ROWS as int,
        ensures
            r is Ok <==> d.nrows() > 0,
            r matches Ok(c) ==> c.root == fit_root(*d) && c.n_features as int == d.nfeatures()
                && c.wf(),
    {
        let n = d.features.len();
        if n == 0 {
            return Err(TrainingError);
        }
        let mut rows: Vec<usize> = Vec::new();
        let mut i: usize = 0;
        while i < n
            invariant
                0 <= i <= n,
                rows@.len() == i,
                forall|q: int| 0 <= q < i ==> rows@[q] == q,
            decreases n - i,
        {
            rows.push(i);
            i += 1;
        }
        proof {
            assert(rows@ =~= index_rows(d.nrows()));
        }
        let root = build(d, rows);
        Ok(TreeClassifier { root, n_features: d.feature_names.len() })
    }
}

} // verus!

