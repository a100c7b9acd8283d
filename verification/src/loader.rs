//! The table loader: raw header and records, already tokenized into fields,
//! become a typed `Dataset`.
//!
//! The last column is always the class label; all preceding columns are
//! features. Every record must have exactly as many fields as the header.
//! The first record that breaks the shape or holds an unreadable field is
//! reported, before any split or training can happen.

use crate::dataset::Dataset;
use crate::parse::{parse_class, parse_class_field, parse_field, parse_real};
use vstd::prelude::*;

verus! {

/// Where and why the table was refused.
#[derive(Debug, Clone, Copy, PartialEq, Eq)]
pub enum ParseError {
    /// The header declared no column at all.
    EmptyHeader,
    /// A record's column count differs from the header's.
    RaggedRow { row: usize, found: usize, expected: usize },
    /// A field could not be read as a number.
    BadField { row: usize, column: usize },
}

/// The header as a sequence of names.
pub open spec fn header_view(header: Vec<String>) -> Seq<Seq<char>> {
    header@.map_values(|s: String| s@)
}

/// The records as a sequence of rows of fields.
pub open spec fn records_view(records: Vec<Vec<String>>) -> Seq<Seq<Seq<char>>> {
    records@.map_values(|r: Vec<String>| r@.map_values(|s: String| s@))
}

/// Whether field `j` of a record of `ncols` columns reads as a number: as a
/// real for a feature column, as a class id for the last column.
pub open spec fn field_ok(rec: Seq<Seq<char>>, ncols: int, j: int) -> bool {
    if j < ncols - 1 {
        parse_real(rec[j]) is Some
    } else {
        parse_class(rec[j]) is Some
    }
}

/// Whether a whole record fits the header: the right column count, every
/// field readable.
pub open spec fn row_ok(rec: Seq<Seq<char>>, ncols: int) -> bool {
    &&& rec.len() == ncols
    &&& forall|j: int| 0 <= j < ncols ==> field_ok(rec, ncols, j)
}

/// Whether the whole table loads.
pub open spec fn table_ok(hv: Seq<Seq<char>>, rv: Seq<Seq<Seq<char>>>) -> bool {
    &&& hv.len() >= 1
    &&& forall|r: int| 0 <= r < rv.len() ==> row_ok(#[trigger] rv[r], hv.len() as int)
}

/// The feature part of one record, parsed.
pub open spec fn feat_row(rec: Seq<Seq<char>>, m: int) -> Seq<i64> {
    Seq::new(m as nat, |j: int| parse_real(rec[j])->0)
}

/// The whole feature matrix, parsed.
pub open spec fn feat_matrix(rv: Seq<Seq<Seq<char>>>, m: int) -> Seq<Seq<i64>> {
    Seq::new(rv.len(), |i: int| feat_row(rv[i], m))
}

/// The label column, parsed.
pub open spec fn label_col(rv: Seq<Seq<Seq<char>>>, m: int) -> Seq<u64> {
    Seq::new(rv.len(), |i: int| parse_class(rv[i][m])->0)
}

/// Parses raw records plus a header row into a `Dataset`.
pub struct TableLoader;

impl TableLoader {
    /// Loads the table. Succeeds exactly when the header is non-empty and
    /// every record matches it; then the dataset holds exactly the parsed
    /// numbers. On failure the error names the first offending record, and
    /// within it the ragged shape or the first unreadable field.
    pub fn load(header: &Vec<String>, records: &Vec<Vec<String>>) -> (r: Result<
        Dataset,
        ParseError,
    >)
        ensures
            ({
                let hv = header_view(*header);
                let rv = records_view(*records);
                let m = hv.len() as int - 1;
                &&& (r is Ok <==> table_ok(hv, rv))
                &&& (r matches Ok(d) ==> {
                    &&& d.wf()
                    &&& d.nrows() == rv.len()
                    &&& d.nfeatures() == m
                    &&& d.names() == hv.take(m)
                    &&& d.feats() == feat_matrix(rv, m)
                    &&& d.labs() == label_col(rv, m)
                })
                &&& (r == Err::<Dataset, ParseError>(ParseError::EmptyHeader) ==> hv.len() == 0)
                &&& (r matches Err(ParseError::RaggedRow { row, found, expected }) ==> {
                    &&& row < rv.len()
                    &&& rv[row as int].len() == found
                    &&& expected == hv.len()
                    &&& found != expected
                    &&& forall|q: int| 0 <= q < row ==> row_ok(#[trigger] rv[q], hv.len() as int)
                })
                &&& (r matches Err(ParseError::BadField { row, column }) ==> {
                    &&& row < rv.len()
                    &&& column < hv.len()
                    &&& rv[row as int].len() == hv.len()
                    &&& !field_ok(rv[row as int], hv.len() as int, column as int)
                    &&& forall|q: int|
                        0 <= q < column ==> field_ok(rv[row as int], hv.len() as int, q)
                    &&& forall|q: int| 0 <= q < row ==> row_ok(#[trigger] rv[q], hv.len() as int)
                })
            }),
    {
        let ghost hv = header_view(*header);
        let ghost rv = records_view(*records);
        if header.len() == 0 {
            return Err(ParseError::EmptyHeader);
        }
        let ncols = header.len();
        let m = ncols - 1;

        let mut feats: Vec<Vec<i64>> = Vec::new();
        let mut labs: Vec<u64> = Vec::new();
        let mut i: usize = 0;
        while i < records.len()
            invariant
                hv == header_view(*header),
                rv == records_view(*records),
                ncols == header@.len(),
                ncols >= 1,
                m == ncols - 1,
                0 <= i <= records@.len(),
                rv.len() == records@.len(),
                feats@.len() == i,
                labs@.len() == i,
                forall|q: int| 0 <= q < i ==> row_ok(#[trigger] rv[q], ncols as int),
                forall|q: int| 0 <= q < i ==> (#[trigger] feats@[q])@ == feat_row(rv[q], m as int),
                forall|q: int| 0 <= q < i ==> labs@[q] == parse_class(rv[q][m as int])->0,
            decreases records@.len() - i,
        {
            let rec = &records[i];
            assert(rv[i as int] == rec@.map_values(|s: String| s@));
            if rec.len() != ncols {
                return Err(
                    ParseError::RaggedRow { row: i, found: rec.len(), expected: ncols },
                );
            }
            let mut rowv: Vec<i64> = Vec::new();
            let mut j: usize = 0;
            while j < m
                invariant
                    rv == records_view(*records),
                    0 <= i < records@.len(),
                    rv.len() == records@.len(),
                    rec == &records@[i as int],
                    rv[i as int] == rec@.map_values(|s: String| s@),
                    rec@.len() == ncols,
                    ncols == header@.len(),
                    hv == header_view(*header),
                    ncols >= 1,
                    m == ncols - 1,
                    forall|q: int| 0 <= q < i ==> row_ok(#[trigger] rv[q], ncols as int),
                    0 <= j <= m,
                    rowv@.len() == j,
                    forall|q: int|
                        0 <= q < j ==> parse_real(rv[i as int][q]) is Some && rowv@[q]
                            == parse_real(#[trigger] rv[i as int][q])->0,
                decreases m - j,
            {
                assert(rv[i as int][j as int] == rec@[j as int]@);
                match parse_field(rec[j].as_str()) {
                    Some(v) => {
                        rowv.push(v);
                    },
                    None => {
                        assert(!field_ok(rv[i as int], ncols as int, j as int));
                        assert(forall|q: int|
                            0 <= q < j ==> field_ok(rv[i as int], ncols as int, q));
                        return Err(ParseError::BadField { row: i, column: j });
                    },
                }
                j += 1;
            }
            assert(rv[i as int][m as int] == rec@[m as int]@);
            match parse_class_field(rec[m].as_str()) {
                Some(c) => {
                    proof {
                        assert(rowv@ =~= feat_row(rv[i as int], m as int));
                        assert(row_ok(rv[i as int], ncols as int)) by {
                            assert(forall|q: int|
                                0 <= q < m ==> field_ok(#[trigger] rv[i as int], ncols as int, q));
                        }
                    }
                    feats.push(rowv);
                    labs.push(c);
                },
                None => {
                    assert(!field_ok(rv[i as int], ncols as int, m as int));
                    assert(forall|q: int| 0 <= q < m ==> field_ok(rv[i as int], ncols as int, q));
                    return Err(ParseError::BadField { row: i, column: m });
                },
            }
            i += 1;
        }

        let mut names: Vec<String> = Vec::new();
        let mut j2: usize = 0;
        while j2 < m
            invariant
                hv == header_view(*header),
                m < header@.len(),
                names@.len() == j2,
                0 <= j2 <= m,
                forall|q: int| 0 <= q < j2 ==> (#[trigger] names@[q])@ == hv[q],
            decreases m - j2,
        {
            let name = header[j2].clone();
            names.push(name);
            j2 += 1;
        }

        let d = Dataset { features: feats, labels: labs, feature_names: names };
        proof {
            assert(d.names() =~= hv.take(m as int));
            assert(d.feats() =~= feat_matrix(rv, m as int));
            assert(d.labs() =~= label_col(rv, m as int));
            assert(d.wf()) by {
                assert(forall|q: int|
                    0 <= q < d.features@.len() ==> (#[trigger] d.features@[q])@.len()
                        == d.feature_names@.len());
            }
        }
        Ok(d)
    }
}

} // verus!
