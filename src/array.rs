use vstd::prelude::*;

use crate::error::AnnError;
use crate::selection::SelectInfoElem;

verus! {

/// How an array is encoded in storage.
#[derive(Debug, Clone, Copy, PartialEq, Eq, Structural)]
pub enum Encoding {
    Dense,
    Categorical,
    Csr,
    Csc,
}

/// A two-dimensional array held row by row.
#[derive(Debug)]
pub struct ArrayData {
    pub encoding: Encoding,
    pub ncols: usize,
    pub rows: Vec<Vec<i64>>,
}

/// The entries of row `row` at the column positions `cols`.
pub open spec fn pick(row: Seq<i64>, cols: Seq<int>) -> Seq<i64> {
    Seq::new(cols.len(), |j: int| row[cols[j]])
}

/// Rows `rs` of `rows`, restricted to the columns `cols`, in order.
pub open spec fn select_rows(rows: Seq<Seq<i64>>, rs: Seq<int>, cols: Seq<int>) -> Seq<Seq<i64>> {
    Seq::new(rs.len(), |i: int| pick(rows[rs[i]], cols))
}

impl ArrayData {
    /// The rows as sequences of values.
    pub open spec fn rows_view(&self) -> Seq<Seq<i64>> {
        Seq::new(self.rows@.len(), |i: int| self.rows@[i]@)
    }

    pub open spec fn nrows(&self) -> nat {
        self.rows@.len()
    }

    /// Every row has `ncols` entries.
    pub open spec fn wf(&self) -> bool {
        forall|i: int| 0 <= i < self.rows@.len() ==> (#[trigger] self.rows@[i])@.len() == self.ncols
    }

    /// An array of the given encoding and rows, each of `ncols` entries.
    pub fn new(encoding: Encoding, ncols: usize, rows: Vec<Vec<i64>>) -> (r: Result<Self, AnnError>)
        ensures
            match r {
                Ok(a) => a.wf() && a.encoding == encoding && a.ncols == ncols && a.rows@ == rows@,
                Err(e) => e == AnnError::DimensionMismatch && exists|i: int|
                    0 <= i < rows@.len() && (#[trigger] rows@[i])@.len() != ncols,
            },
    {
        let mut i: usize = 0;
        while i < rows.len()
            invariant
                i <= rows@.len(),
                forall|t: int| 0 <= t < i ==> (#[trigger] rows@[t])@.len() == ncols,
            decreases rows@.len() - i,
        {
            if rows[i].len() != ncols {
                return Err(AnnError::DimensionMismatch);
            }
            i = i + 1;
        }
        Ok(ArrayData { encoding, ncols, rows })
    }

    /// Number of rows and of columns.
    pub fn shape(&self) -> (r: (usize, usize))
        ensures
            r.0 == self.nrows(),
            r.1 == self.ncols,
    {
        (self.rows.len(), self.ncols)
    }

    /// A copy of the array.
    pub fn copy(&self) -> (r: Self)
        ensures
            r.encoding == self.encoding,
            r.ncols == self.ncols,
            r.rows_view() == self.rows_view(),
            self.wf() ==> r.wf(),
    {
        let mut rows: Vec<Vec<i64>> = Vec::new();
        let mut i: usize = 0;
        while i < self.rows.len()
            invariant
                i <= self.rows@.len(),
                rows@.len() == i,
                forall|t: int| 0 <= t < i ==> (#[trigger] rows@[t])@ == self.rows@[t]@,
            decreases self.rows@.len() - i,
        {
            rows.push(copy_row(&self.rows[i]));
            i = i + 1;
        }
        let r = ArrayData { encoding: self.encoding, ncols: self.ncols, rows };
        assert(r.rows_view() =~= self.rows_view());
        r
    }

    /// The rows picked by `rsel`, restricted to the columns picked by `csel`.
    pub fn select(&self, rsel: &SelectInfoElem, csel: &SelectInfoElem) -> (r: Self)
        requires
            self.wf(),
            rsel.valid(self.nrows()),
            csel.valid(self.ncols as nat),
        ensures
            r.wf(),
            r.encoding == self.encoding,
            r.ncols == csel.indices(self.ncols as nat).len(),
            r.rows_view() == select_rows(
                self.rows_view(),
                rsel.indices(self.nrows()),
                csel.indices(self.ncols as nat),
            ),
    {
        let ri = rsel.to_vec(self.rows.len());
        let ci = csel.to_vec(self.ncols);
        let ghost rs = rsel.indices(self.nrows());
        let ghost cs = csel.indices(self.ncols as nat);
        let mut rows: Vec<Vec<i64>> = Vec::new();
        let mut i: usize = 0;
        while i < ri.len()
            invariant
                self.wf(),
                i <= ri@.len(),
                ri@.len() == rs.len(),
                forall|t: int| 0 <= t < ri@.len() ==> ri@[t] as int == rs[t],
                forall|t: int| 0 <= t < ri@.len() ==> ri@[t] < self.rows@.len(),
                ci@.len() == cs.len(),
                forall|t: int| 0 <= t < ci@.len() ==> ci@[t] as int == cs[t],
                forall|t: int| 0 <= t < ci@.len() ==> ci@[t] < self.ncols,
                rows@.len() == i,
                forall|t: int|
                    0 <= t < i ==> (#[trigger] rows@[t])@ == pick(self.rows_view()[rs[t]], cs),
            decreases ri@.len() - i,
        {
            let src = &self.rows[ri[i]];
            let mut row: Vec<i64> = Vec::new();
            let mut j: usize = 0;
            while j < ci.len()
                invariant
                    j <= ci@.len(),
                    ci@.len() == cs.len(),
                    src@.len() == self.ncols,
                    forall|t: int| 0 <= t < ci@.len() ==> ci@[t] as int == cs[t],
                    forall|t: int| 0 <= t < ci@.len() ==> ci@[t] < self.ncols,
                    row@.len() == j,
                    forall|t: int| 0 <= t < j ==> row@[t] == src@[cs[t]],
                decreases ci@.len() - j,
            {
                row.push(src[ci[j]]);
                j = j + 1;
            }
            assert(row@ =~= pick(src@, cs));
            rows.push(row);
            i = i + 1;
        }
        let r = ArrayData { encoding: self.encoding, ncols: ci.len(), rows };
        assert(r.rows_view() =~= select_rows(self.rows_view(), rs, cs));
        r
    }
}

/// A copy of a row.
pub fn copy_row(v: &Vec<i64>) -> (r: Vec<i64>)
    ensures
        r@ == v@,
{
    let mut out: Vec<i64> = Vec::new();
    let mut i: usize = 0;
    while i < v.len()
        invariant
            i <= v@.len(),
            out@ == v@.subrange(0, i as int),
        decreases v@.len() - i,
    {
        out.push(v[i]);
        i = i + 1;
    }
    assert(out@ == v@.subrange(0, v@.len() as int));
    out
}

} // verus!
