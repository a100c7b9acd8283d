//! The immutable labeled table, and its partition into training and
//! evaluation subsets.

use vstd::prelude::*;

verus! {

/// A labeled table: a row-major fixed-point feature matrix, one class label
/// per row, and one name per feature column. Built once by the loader and
/// only read afterwards.
#[derive(Debug, Clone)]
pub struct Dataset {
    pub features: Vec<Vec<i64>>,
    pub labels: Vec<u64>,
    pub feature_names: Vec<String>,
}

impl Dataset {
    /// The feature matrix as a sequence of rows.
    pub open spec fn feats(self) -> Seq<Seq<i64>> {
        self.features@.map_values(|r: Vec<i64>| r@)
    }

    /// The label column.
    pub open spec fn labs(self) -> Seq<u64> {
        self.labels@
    }

    /// The feature names.
    pub open spec fn names(self) -> Seq<Seq<char>> {
        self.feature_names@.map_values(|s: String| s@)
    }

    pub open spec fn nrows(self) -> int {
        self.features@.len() as int
    }

    pub open spec fn nfeatures(self) -> int {
        self.feature_names@.len() as int
    }

    /// One label per row, and every row as long as the name list.
    pub open spec fn wf(self) -> bool {
        &&& self.labels@.len() == self.features@.len()
        &&& forall|i: int|
            0 <= i < self.features@.len() ==> (#[trigger] self.features@[i])@.len()
                == self.feature_names@.len()
    }

    pub fn n_rows(&self) -> (r: usize)
        ensures
            r as int == self.nrows(),
    {
        self.features.len()
    }

    pub fn n_features(&self) -> (r: usize)
        ensures
            r as int == self.nfeatures(),
    {
        self.feature_names.len()
    }

    /// Builds a dataset after checking its shape invariant.
    pub fn new(features: Vec<Vec<i64>>, labels: Vec<u64>, feature_names: Vec<String>) -> (r: Option<
        Dataset,
    >)
        ensures
            r is Some <==> (labels@.len() == features@.len() && forall|i: int|
                0 <= i < features@.len() ==> (#[trigger] features@[i])@.len()
                    == feature_names@.len()),
            r matches Some(d) ==> d.features == features && d.labels == labels
                && d.feature_names == feature_names && d.wf(),
    {
        if labels.len() != features.len() {
            return None;
        }
        let mut i: usize = 0;
        while i < features.len()
            invariant
                0 <= i <= features@.len(),
                forall|q: int|
                    0 <= q < i ==> (#[trigger] features@[q])@.len() == feature_names@.len(),
            decreases features@.len() - i,
        {
            if features[i].len() != feature_names.len() {
                return None;
            }
            i += 1;
        }
        Some(Dataset { features, labels, feature_names })
    }
}

/// Copies one feature row.
fn copy_row(src: &Vec<i64>) -> (r: Vec<i64>)
    ensures
        r@ == src@,
{
    let mut out: Vec<i64> = Vec::new();
    let mut j: usize = 0;
    while j < src.len()
        invariant
            0 <= j <= src@.len(),
            out@ == src@.take(j as int),
        decreases src@.len() - j,
    {
        out.push(src[j]);
        proof {
            assert(src@.take(j + 1) =~= src@.take(j as int).push(src@[j as int]));
        }
        j += 1;
    }
    proof {
        assert(src@.take(src@.len() as int) =~= src@);
    }
    out
}

/// Copies the names column.
fn copy_names(src: &Vec<String>) -> (r: Vec<String>)
    ensures
        r@.map_values(|s: String| s@) == src@.map_values(|s: String| s@),
{
    let mut out: Vec<String> = Vec::new();
    let mut j: usize = 0;
    while j < src.len()
        invariant
            0 <= j <= src@.len(),
            out@.len() == j,
            forall|q: int| 0 <= q < j ==> (#[trigger] out@[q])@ == src@[q]@,
        decreases src@.len() - j,
    {
        let name = src[j].clone();
        out.push(name);
        j += 1;
    }
    proof {
        assert(out@.map_values(|s: String| s@) =~= src@.map_values(|s: String| s@));
    }
    out
}

/// The split ratio was outside (0, 1), or one of the two subsets would have
/// held no row.
#[derive(Debug, Clone, Copy, PartialEq, Eq)]
pub struct InvalidRatioError;

/// Number of rows assigned to the training subset by the ratio `num / den`:
/// the floor of `n * num / den`.
pub open spec fn train_count(n: int, num: int, den: int) -> int {
    n * num / den
}

/// Partitions a dataset into a training and an evaluation subset.
pub struct Splitter;

impl Splitter {
    /// Assigns the first `floor(n * num / den)` rows, in their original
    /// order, to the training subset and the remaining rows to the
    /// evaluation subset. No shuffling: for a fixed input the split is
    /// reproducible. Fails if the ratio is outside (0, 1) or either subset
    /// would be empty.
    pub fn split(d: &Dataset, num: u64, den: u64) -> (r: Result<
        (Dataset, Dataset),
        InvalidRatioError,
    >)
        requires
            d.wf(),
        ensures
            ({
                let k = train_count(d.nrows(), num as int, den as int);
                &&& (r is Ok <==> (0 < num < den && 1 <= k < d.nrows()))
                &&& (r matches Ok(p) ==> {
                    &&& p.0.wf() && p.1.wf()
                    &&& p.0.names() == d.names() && p.1.names() == d.names()
                    &&& p.0.feats() == d.feats().take(k) && p.0.labs() == d.labs().take(k)
                    &&& p.1.feats() == d.feats().skip(k) && p.1.labs() == d.labs().skip(k)
                    &&& p.0.nrows() == k && p.1.nrows() == d.nrows() - k
                    &&& p.0.feats() + p.1.feats() == d.feats()
                    &&& p.0.labs() + p.1.labs() == d.labs()
                })
            }),
    {
        let n = d.features.len();
        if num == 0 || den == 0 || num >= den {
            return Err(InvalidRatioError);
        }
        proof {
            assert((n as int) * (num as int) <= (u64::MAX as int) * (u64::MAX as int))
                by (nonlinear_arith)
                requires
                    0 <= n as int <= u64::MAX as int,
                    0 <= num as int <= u64::MAX as int,
            ;
        }
        let k128 = (n as u128) * (num as u128) / (den as u128);
        assert(k128 as int == train_count(d.nrows(), num as int, den as int));
        if k128 == 0 || k128 >= n as u128 {
            return Err(InvalidRatioError);
        }
        let k = k128 as usize;

        let mut trf: Vec<Vec<i64>> = Vec::new();
        let mut trl: Vec<u64> = Vec::new();
        let mut i: usize = 0;
        while i < k
            invariant
                0 <= i <= k < d.features@.len(),
                d.wf(),
                d.labels@.len() == d.features@.len(),
                trf@.len() == i && trl@.len() == i,
                forall|q: int| 0 <= q < i ==> (#[trigger] trf@[q])@ == d.feats()[q],
                forall|q: int| 0 <= q < i ==> trl@[q] == d.labs()[q],
            decreases k - i,
        {
            let row = copy_row(&d.features[i]);
            trf.push(row);
            trl.push(d.labels[i]);
            i += 1;
        }

        let mut tef: Vec<Vec<i64>> = Vec::new();
        let mut tel: Vec<u64> = Vec::new();
        let mut i2: usize = k;
        while i2 < n
            invariant
                k <= i2 <= n,
                n == d.features@.len(),
                d.wf(),
                d.labels@.len() == d.features@.len(),
                tef@.len() == i2 - k && tel@.len() == i2 - k,
                forall|q: int| 0 <= q < i2 - k ==> (#[trigger] tef@[q])@ == d.feats()[q + k],
                forall|q: int| 0 <= q < i2 - k ==> tel@[q] == d.labs()[q + k],
            decreases n - i2,
        {
            let row = copy_row(&d.features[i2]);
            tef.push(row);
            tel.push(d.labels[i2]);
            i2 += 1;
        }

        let trn = copy_names(&d.feature_names);
        let ten = copy_names(&d.feature_names);
        let train = Dataset { features: trf, labels: trl, feature_names: trn };
        let test = Dataset { features: tef, labels: tel, feature_names: ten };
        proof {
            assert(train.feats() =~= d.feats().take(k as int));
            assert(train.labs() =~= d.labs().take(k as int));
            assert(test.feats() =~= d.feats().skip(k as int));
            assert(test.labs() =~= d.labs().skip(k as int));
            assert(train.names() =~= d.names());
            assert(test.names() =~= d.names());
            assert(train.feats() + test.feats() =~= d.feats());
            assert(train.labs() + test.labs() =~= d.labs());
            assert(forall|q: int|
                0 <= q < train.features@.len() ==> (#[trigger] train.features@[q])@.len()
                    == train.feature_names@.len());
            assert(forall|q: int|
                0 <= q < test.features@.len() ==> (#[trigger] test.features@[q])@.len()
                    == test.feature_names@.len());
        }
        Ok((train, test))
    }
}

} // verus!
