use vstd::prelude::*;

use crate::array::{copy_row, pick, select_rows, ArrayData, Encoding};
use crate::error::AnnError;
use crate::selection::SelectInfoElem;
use crate::vecvec::{
    concat_globals, offsets_wf, part_globals, part_size, size_prefix, split_concat, split_ok,
    VecVecIndex,
};

verus! {

/// Rows of the first `k` arrays, one after the other.
pub open spec fn concat_rows(elems: Seq<ArrayData>, k: int) -> Seq<Seq<i64>>
    decreases k,
{
    if k <= 0 {
        Seq::empty()
    } else {
        concat_rows(elems, k - 1) + elems[k - 1].rows_view()
    }
}

/// Row counts of the arrays.
pub open spec fn row_counts(elems: Seq<ArrayData>) -> Seq<usize> {
    Seq::new(elems.len(), |p: int| elems[p].rows.len())
}

/// The rows that partition reads return, concatenated in partition order,
/// each restricted to the columns `cols`.
pub open spec fn partition_reads(
    offs: Seq<usize>,
    parts: Seq<SelectInfoElem>,
    rows: Seq<Seq<i64>>,
    cols: Seq<int>,
) -> Seq<Seq<i64>> {
    let c = split_concat(offs, parts);
    Seq::new(c.len(), |t: int| pick(rows[c[t]], cols))
}

/// Reads put back in the order of the selection: row `i` of the result is
/// row `m[i]` of the reads.
pub open spec fn apply_mapping(reads: Seq<Seq<i64>>, mapping: Option<Seq<usize>>) -> Seq<Seq<i64>> {
    match mapping {
        None => reads,
        Some(m) => Seq::new(m.len(), |i: int| reads[m[i] as int]),
    }
}

/// Reading each partition on its own and putting the rows back by the map
/// gives the same rows, in the same order, as selecting from the
/// concatenation directly; so the two also hold the same multiset of rows.
pub proof fn lemma_partitioned_read_matches(
    offs: Seq<usize>,
    g: Seq<int>,
    parts: Seq<SelectInfoElem>,
    mapping: Option<Seq<usize>>,
    rows: Seq<Seq<i64>>,
    cols: Seq<int>,
)
    requires
        split_ok(offs, g, parts, mapping),
    ensures
        apply_mapping(partition_reads(offs, parts, rows, cols), mapping) == select_rows(
            rows,
            g,
            cols,
        ),
        apply_mapping(partition_reads(offs, parts, rows, cols), mapping).to_multiset()
            == select_rows(rows, g, cols).to_multiset(),
{
    let reads = partition_reads(offs, parts, rows, cols);
    match mapping {
        None => {
            assert(reads =~= select_rows(rows, g, cols));
        },
        Some(m) => {
            assert(apply_mapping(reads, mapping) =~= select_rows(rows, g, cols));
        },
    }
}

proof fn lemma_concat_rows_len(elems: Seq<ArrayData>, k: int)
    requires
        0 <= k <= elems.len(),
    ensures
        concat_rows(elems, k).len() == size_prefix(row_counts(elems), k),
    decreases k,
{
    if k > 0 {
        lemma_concat_rows_len(elems, k - 1);
    }
}

/// Row `l` of array `p` stands in the concatenation after the rows of the
/// arrays before it.
proof fn lemma_concat_rows_index(elems: Seq<ArrayData>, k: int, p: int, l: int)
    requires
        0 <= p < k <= elems.len(),
        0 <= l < elems[p].rows@.len(),
    ensures
        concat_rows(elems, k).len() == size_prefix(row_counts(elems), k),
        concat_rows(elems, k)[size_prefix(row_counts(elems), p) + l] == elems[p].rows_view()[l],
    decreases k,
{
    lemma_concat_rows_len(elems, k - 1);
    lemma_concat_rows_len(elems, k);
    let c = concat_rows(elems, k - 1);
    let d = elems[k - 1].rows_view();
    assert(concat_rows(elems, k) == c + d);
    lemma_size_prefix_le(row_counts(elems), p, p + 1);
    if p < k - 1 {
        lemma_concat_rows_index(elems, k - 1, p, l);
        lemma_size_prefix_le(row_counts(elems), p + 1, k - 1);
        assert((c + d)[size_prefix(row_counts(elems), p) + l] == c[size_prefix(
            row_counts(elems),
            p,
        ) + l]);
    } else {
        assert((c + d)[size_prefix(row_counts(elems), p) + l] == d[l]);
    }
}

/// Stacked rows have the width of the arrays.
proof fn lemma_concat_rows_width(elems: Seq<ArrayData>, k: int, ncols: usize)
    requires
        0 <= k <= elems.len(),
        forall|p: int| 0 <= p < k ==> (#[trigger] elems[p]).wf() && elems[p].ncols == ncols,
    ensures
        forall|i: int| 0 <= i < concat_rows(elems, k).len() ==> (#[trigger] concat_rows(elems, k)[i]).len() == ncols,
    decreases k,
{
    if k > 0 {
        lemma_concat_rows_width(elems, k - 1, ncols);
        let c = concat_rows(elems, k - 1);
        let d = elems[k - 1].rows_view();
        assert(concat_rows(elems, k) == c + d);
        assert forall|i: int| 0 <= i < (c + d).len() implies #[trigger] (c + d)[i].len() == ncols by {
            if i >= c.len() {
                assert(elems[k - 1].wf());
                assert(d[i - c.len()] == elems[k - 1].rows@[i - c.len()]@);
            }
        }
    }
}

proof fn lemma_size_prefix_le(sizes: Seq<usize>, i: int, j: int)
    requires
        0 <= i <= j,
    ensures
        size_prefix(sizes, i) <= size_prefix(sizes, j),
        size_prefix(sizes, i) >= 0,
    decreases j,
{
    if j > 0 {
        if i == j {
            lemma_size_prefix_le(sizes, i - 1, j - 1);
        } else {
            lemma_size_prefix_le(sizes, i, j - 1);
        }
    }
}

/// Arrays stacked along their first axis and seen as one array; nothing is
/// copied between them.
#[derive(Debug)]
pub struct StackedArrayElem {
    index: VecVecIndex,
    elems: Vec<ArrayData>,
    ncols: usize,
    encoding: Encoding,
}

impl View for StackedArrayElem {
    /// The rows of the stacked array, and its number of columns.
    type V = (Seq<Seq<i64>>, nat);

    closed spec fn view(&self) -> (Seq<Seq<i64>>, nat) {
        (concat_rows(self.elems@, self.elems@.len() as int), self.ncols as nat)
    }
}

/// The encoding of a stack of arrays: that of the first, dense when there
/// is none.
pub open spec fn stack_encoding(elems: Seq<ArrayData>) -> Encoding {
    if elems.len() == 0 {
        Encoding::Dense
    } else {
        elems[0].encoding
    }
}

/// All arrays share the encoding of the first.
pub open spec fn same_encoding(elems: Seq<ArrayData>) -> bool {
    forall|p: int| 0 <= p < elems.len() ==> #[trigger] elems[p].encoding == elems[0].encoding
}

/// All arrays share the number of columns of the first.
pub open spec fn same_ncols(elems: Seq<ArrayData>) -> bool {
    forall|p: int| 0 <= p < elems.len() ==> #[trigger] elems[p].ncols == elems[0].ncols
}

impl StackedArrayElem {
    /// The shared encoding of the stacked arrays.
    pub closed spec fn enc(&self) -> Encoding {
        self.encoding
    }

    /// Number of stacked arrays.
    pub closed spec fn num_parts(&self) -> nat {
        self.elems@.len()
    }

    pub closed spec fn wf(&self) -> bool {
        &&& offsets_wf(self.index@)
        &&& self.index@.len() == self.elems@.len() + 1
        &&& forall|p: int|
            0 <= p <= self.elems@.len() ==> self.index@[p] == size_prefix(
                row_counts(self.elems@),
                p,
            )
        &&& forall|p: int| 0 <= p < self.elems@.len() ==> (#[trigger] self.elems@[p]).wf()
        &&& forall|p: int| 0 <= p < self.elems@.len() ==> #[trigger] self.elems@[p].ncols == self.ncols
        &&& forall|p: int|
            0 <= p < self.elems@.len() ==> #[trigger] self.elems@[p].encoding == self.encoding
    }

    /// Stacks the arrays in order. They must share their encoding and their
    /// number of columns, and the total number of rows must fit in `usize`.
    pub fn new(elems: Vec<ArrayData>) -> (r: Result<Self, AnnError>)
        requires
            forall|p: int| 0 <= p < elems@.len() ==> (#[trigger] elems@[p]).wf(),
        ensures
            r is Ok <==> (same_encoding(elems@) && same_ncols(elems@) && size_prefix(
                row_counts(elems@),
                elems@.len() as int,
            ) <= usize::MAX),
            r == Err::<Self, AnnError>(AnnError::EncodingMismatch) <==> !same_encoding(elems@),
            r is Err && same_encoding(elems@) ==> r == Err::<Self, AnnError>(
                AnnError::DimensionMismatch,
            ),
            r matches Ok(s) ==> s.enc() == stack_encoding(elems@),
            r matches Ok(s) ==> s.wf() && s.num_parts() == elems@.len() && s@.0 == concat_rows(elems@, elems@.len() as int) && s@.1
                == if elems@.len() == 0 {
                0
            } else {
                elems@[0].ncols as nat
            },
    {
        let mut p: usize = 0;
        while p < elems.len()
            invariant
                p <= elems@.len(),
                forall|t: int| 0 <= t < p ==> #[trigger] elems@[t].encoding == elems@[0].encoding,
            decreases elems@.len() - p,
        {
            if elems[p].encoding != elems[0].encoding {
                return Err(AnnError::EncodingMismatch);
            }
            p = p + 1;
        }
        let mut sizes: Vec<usize> = Vec::new();
        let mut total: usize = 0;
        let mut p: usize = 0;
        while p < elems.len()
            invariant
                p <= elems@.len(),
                same_encoding(elems@),
                forall|t: int| 0 <= t < p ==> #[trigger] elems@[t].ncols == elems@[0].ncols,
                sizes@ == row_counts(elems@).subrange(0, p as int),
                total == size_prefix(row_counts(elems@), p as int),
            decreases elems@.len() - p,
        {
            if elems[p].ncols != elems[0].ncols {
                return Err(AnnError::DimensionMismatch);
            }
            let n = elems[p].rows.len();
            proof {
                assert(size_prefix(row_counts(elems@), p as int + 1) == total + n);
                lemma_size_prefix_le(row_counts(elems@), p as int + 1, elems@.len() as int);
            }
            if n > usize::MAX - total {
                return Err(AnnError::DimensionMismatch);
            }
            total = total + n;
            sizes.push(n);
            p = p + 1;
        }
        assert(sizes@ =~= row_counts(elems@));
        let index = VecVecIndex::new(&sizes);
        let (ncols, encoding) = if elems.len() == 0 {
            (0, Encoding::Dense)
        } else {
            (elems[0].ncols, elems[0].encoding)
        };
        Ok(StackedArrayElem { index, elems, ncols, encoding })
    }

    /// Number of rows of all arrays together, and the shared number of
    /// columns.
    pub fn shape(&self) -> (r: (usize, usize))
        requires
            self.wf(),
        ensures
            r.0 == self@.0.len(),
            r.1 == self@.1,
    {
        proof {
            lemma_concat_rows_len(self.elems@, self.elems@.len() as int);
        }
        (self.index.len(), self.ncols)
    }

    /// The number of stacked arrays.
    pub fn n_partitions(&self) -> (r: usize)
        ensures
            r == self.num_parts(),
    {
        self.elems.len()
    }

    /// Reads all arrays and stacks them into one.
    pub fn data(&self) -> (r: ArrayData)
        requires
            self.wf(),
        ensures
            r.wf(),
            r.encoding == self.enc(),
            r.ncols == self@.1,
            r.rows_view() == self@.0,
    {
        let mut rows: Vec<Vec<i64>> = Vec::new();
        let mut p: usize = 0;
        while p < self.elems.len()
            invariant
                self.wf(),
                p <= self.elems@.len(),
                rows@.len() == concat_rows(self.elems@, p as int).len(),
                forall|t: int|
                    0 <= t < rows@.len() ==> (#[trigger] rows@[t])@ == concat_rows(
                        self.elems@,
                        p as int,
                    )[t],
                forall|t: int| 0 <= t < rows@.len() ==> (#[trigger] rows@[t])@.len() == self.ncols,
            decreases self.elems@.len() - p,
        {
            let mut part = self.elems[p].copy();
            let ghost before = rows@;
            let ghost pr = part.rows@;
            rows.append(&mut part.rows);
            proof {
                let c = concat_rows(self.elems@, p as int);
                let d = self.elems@[p as int].rows_view();
                assert(concat_rows(self.elems@, p as int + 1) == c + d);
                assert forall|t: int| 0 <= t < rows@.len() implies (#[trigger] rows@[t])@ == (c
                    + d)[t] by {
                    if t >= before.len() {
                        assert(rows@[t] == pr[t - before.len()]);
                    }
                }
            }
            p = p + 1;
        }
        let r = ArrayData { encoding: self.encoding, ncols: self.ncols, rows };
        assert(r.rows_view() =~= self@.0);
        r
    }

    /// The rows from `start` up to `start + k` (fewer at the end), read
    /// partition by partition.
    pub fn chunk(&self, start: usize, k: usize) -> (r: ArrayData)
        requires
            self.wf(),
        ensures
            r.wf(),
            r.ncols == self@.1,
            r.rows_view() == self@.0.subrange(
                if start > self@.0.len() { self@.0.len() as int } else { start as int },
                if start as int + k > self@.0.len() { self@.0.len() as int } else { start + k },
            ),
    {
        let (n, _) = self.shape();
        let end = if k > n || start > n - k {
            n
        } else {
            start + k
        };
        let rows = SelectInfoElem::Slice(crate::selection::Slice { start, end: Some(end), step: 1 });
        let sel = vec![rows, SelectInfoElem::full()];
        proof {
            crate::selection::lemma_full_indices(&sel@[1], self@.1);
            crate::selection::lemma_indices_in_bounds(&sel@[0], n as nat);
        }
        let a = self.select(&sel).unwrap();
        proof {
            lemma_concat_rows_width(self.elems@, self.elems@.len() as int, self.ncols);
            let lo: int = if start > n { n as int } else { start as int };
            let hi: int = if start as int + k > n { n as int } else { start + k };
            let d = (end - lo - 1) as nat;
            if end > lo {
                assert(d / 1 == d);
            }
            assert(a.rows_view() =~= self@.0.subrange(lo, hi)) by {
                assert forall|i: int| 0 <= i < a.rows_view().len() implies a.rows_view()[i]
                    == self@.0.subrange(lo, hi)[i] by {
                    assert(crate::array::pick(self@.0[lo + i], Seq::new(self@.1, |j: int| j))
                        =~= self@.0[lo + i]);
                }
            }
        }
        a
    }

    /// The rows picked by `sel[0]` and the columns picked by `sel[1]`, in the
    /// order of the selection. Each array is read only for its own rows.
    /// Fails with `SelectionError` when `sel` is not two-dimensional or
    /// picks a position out of bounds.
    pub fn select(&self, sel: &Vec<SelectInfoElem>) -> (r: Result<ArrayData, AnnError>)
        requires
            self.wf(),
        ensures
            r is Ok <==> (sel@.len() == 2 && sel@[0].valid(self@.0.len()) && sel@[1].valid(
                self@.1,
            )),
            r is Err ==> r == Err::<ArrayData, AnnError>(AnnError::SelectionError),
            r matches Ok(a) ==> a.wf() && a.rows_view() == select_rows(
                self@.0,
                sel@[0].indices(self@.0.len()),
                sel@[1].indices(self@.1),
            ) && a.ncols == sel@[1].indices(self@.1).len(),
    {
        let (n, ncols) = self.shape();
        if sel.len() != 2 {
            return Err(AnnError::SelectionError);
        }
        if !sel[0].is_valid(n) || !sel[1].is_valid(ncols) {
            return Err(AnnError::SelectionError);
        }
        let ghost offs = self.index@;
        let ghost all = self@.0;
        let ghost cols = sel@[1].indices(ncols as nat);
        proof {
            lemma_concat_rows_len(self.elems@, self.elems@.len() as int);
        }
        let (parts, mapping) = self.index.split_select(&sel[0]);
        let ghost ps = parts@;
        let mut reads: Vec<Vec<i64>> = Vec::new();
        let mut p: usize = 0;
        while p < self.elems.len()
            invariant
                self.wf(),
                offs == self.index@,
                all == concat_rows(self.elems@, self.elems@.len() as int),
                ps == parts@,
                ps.len() == self.elems@.len(),
                forall|q: int| 0 <= q < ps.len() ==> #[trigger] ps[q].valid(part_size(offs, q)),
                cols == sel@[1].indices(self.ncols as nat),
                sel@.len() == 2,
                sel@[1].valid(self.ncols as nat),
                p <= self.elems@.len(),
                reads@.len() == concat_globals(offs, ps, p as int).len(),
                forall|t: int|
                    0 <= t < reads@.len() ==> (#[trigger] reads@[t])@ == pick(
                        all[concat_globals(offs, ps, p as int)[t]],
                        cols,
                    ),
                forall|t: int| 0 <= t < reads@.len() ==> (#[trigger] reads@[t])@.len() == cols.len(),
            decreases self.elems@.len() - p,
        {
            let ghost e = self.elems@[p as int];
            proof {
                assert(size_prefix(row_counts(self.elems@), p as int + 1) == size_prefix(
                    row_counts(self.elems@),
                    p as int,
                ) + e.rows.len());
                assert(part_size(offs, p as int) == e.nrows());
            }
            let mut part = self.elems[p].select(&parts[p], &sel[1]);
            let ghost before = reads@;
            let ghost pr = part.rows@;
            let ghost loc = ps[p as int].indices(part_size(offs, p as int));
            assert(part.rows_view().len() == pr.len());
            assert(part.rows_view() == select_rows(e.rows_view(), ps[p as int].indices(e.nrows()), cols));
            assert(loc == ps[p as int].indices(e.nrows()));
            let ghost prv = part.rows_view();
            reads.append(&mut part.rows);
            proof {
                crate::selection::lemma_indices_in_bounds(&ps[p as int], part_size(offs, p as int));
                assert(pr.len() == loc.len());
                let c = concat_globals(offs, ps, p as int);
                let d = part_globals(offs, ps, p as int);
                assert(concat_globals(offs, ps, p as int + 1) == c + d);
                assert forall|t: int| 0 <= t < reads@.len() implies (#[trigger] reads@[t])@ == pick(
                    all[(c + d)[t]],
                    cols,
                ) by {
                    if t < before.len() {
                        assert((c + d)[t] == c[t]);
                        assert(reads@[t] == before[t]);
                    } else {
                        let u = t - before.len();
                        assert(reads@[t] == pr[u]);
                        assert(pr[u]@ == prv[u]);
                        assert(prv[u] == pick(e.rows_view()[loc[u]], cols));
                        assert(d[u] == loc[u] + offs[p as int]);
                        lemma_concat_rows_index(
                            self.elems@,
                            self.elems@.len() as int,
                            p as int,
                            loc[u],
                        );
                        assert((c + d)[t] == d[u]);
                    }
                }
            }
            p = p + 1;
        }
        let ghost gsel = sel@[0].indices(n as nat);
        let ghost mspec = match &mapping {
            Some(m) => Some(m@),
            None => None,
        };
        proof {
            lemma_partitioned_read_matches(offs, gsel, ps, mspec, all, cols);
            assert(split_concat(offs, ps) == concat_globals(offs, ps, self.elems@.len() as int));
        }
        let rows = match mapping {
            None => {
                proof {
                    assert forall|t: int| 0 <= t < reads@.len() implies (#[trigger] reads@[t])@
                        == select_rows(all, gsel, cols)[t] by {
                        assert(partition_reads(offs, ps, all, cols)[t] == reads@[t]@);
                    }
                }
                reads
            },
            Some(m) => {
                let mut out: Vec<Vec<i64>> = Vec::new();
                let mut i: usize = 0;
                assert(crate::vecvec::reorders(split_concat(offs, ps), gsel, m@));
                while i < m.len()
                    invariant
                        mspec == Some(m@),
                        crate::vecvec::reorders(split_concat(offs, ps), gsel, m@),
                        split_concat(offs, ps) == concat_globals(
                            offs,
                            ps,
                            self.elems@.len() as int,
                        ),
                        reads@.len() == concat_globals(offs, ps, self.elems@.len() as int).len(),
                        forall|t: int|
                            0 <= t < reads@.len() ==> (#[trigger] reads@[t])@ == pick(
                                all[concat_globals(offs, ps, self.elems@.len() as int)[t]],
                                cols,
                            ),
                        forall|t: int|
                            0 <= t < reads@.len() ==> (#[trigger] reads@[t])@.len() == cols.len(),
                        i <= m@.len(),
                        out@.len() == i,
                        forall|t: int|
                            0 <= t < i ==> (#[trigger] out@[t])@ == select_rows(all, gsel, cols)[t],
                        forall|t: int| 0 <= t < i ==> (#[trigger] out@[t])@.len() == cols.len(),
                    decreases m@.len() - i,
                {
                    let k = m[i];
                    proof {
                        assert(m@[i as int] < gsel.len());
                        assert(apply_mapping(partition_reads(offs, ps, all, cols), mspec)[i as int]
                            == partition_reads(offs, ps, all, cols)[k as int]);
                    }
                    out.push(copy_row(&reads[k]));
                    i = i + 1;
                }
                out
            },
        };
        let a = ArrayData { encoding: self.encoding, ncols: sel[1].len(ncols), rows };
        assert(a.rows_view() =~= select_rows(all, gsel, cols));
        Ok(a)
    }
}

/// The stacked rows are as many as the rows of the arrays together.
pub proof fn lemma_stacked_rows_len(elems: Seq<ArrayData>, k: int)
    requires
        0 <= k <= elems.len(),
    ensures
        concat_rows(elems, k).len() == size_prefix(row_counts(elems), k),
{
    lemma_concat_rows_len(elems, k);
}

} // verus!
