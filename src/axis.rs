use vstd::prelude::*;
use vstd::string::StringExecFns;

use crate::array::{select_rows, ArrayData};
use crate::collection::{entry_keys, find_key, key_list, keys_unique, lookup, put, take};
use crate::dim::{try_set_spec, Dim};
use crate::error::AnnError;
use crate::index::strs;
use crate::selection::{lemma_full_indices, SelectInfoElem};
use crate::stacked::{
    concat_rows, row_counts, same_encoding, same_ncols, stack_encoding, StackedArrayElem,
};
use crate::vecvec::size_prefix;

verus! {

/// How the arrays of a collection are aligned with the axes of the data.
#[derive(Debug, Clone, Copy, PartialEq, Eq, Structural)]
pub enum Axis {
    /// Rows follow the first dimension.
    Row,
    /// Rows follow the first dimension and columns the second.
    RowColumn,
    /// Square arrays whose rows and columns both follow the first dimension.
    Pairwise,
}

/// The array fits a collection of the given axis kind under the dimensions
/// `d1` and `d2`.
pub open spec fn conforms(axis: Axis, a: ArrayData, d1: Option<usize>, d2: Option<usize>) -> bool {
    &&& a.wf()
    &&& match axis {
        Axis::Row => d1 == Some(a.rows.len()),
        Axis::RowColumn => d1 == Some(a.rows.len()) && d2 == Some(a.ncols),
        Axis::Pairwise => a.rows.len() == a.ncols && d1 == Some(a.rows.len()),
    }
}

pub open spec fn all_conform(
    axis: Axis,
    entries: Seq<(String, ArrayData)>,
    d1: Option<usize>,
    d2: Option<usize>,
) -> bool {
    forall|i: int| 0 <= i < entries.len() ==> #[trigger] conforms(axis, entries[i].1, d1, d2)
}

/// The dimensions after an array of `n` rows and `m` columns is offered to
/// a collection of the given axis kind, and whether it is accepted.
pub open spec fn add_outcome(axis: Axis, n: usize, m: usize, d1: Option<usize>, d2: Option<usize>) -> (
    Option<usize>,
    Option<usize>,
    Result<(), AnnError>,
) {
    match axis {
        Axis::Row => {
            let (e1, ok) = try_set_spec(d1, n);
            (e1, d2, if ok { Ok(()) } else { Err(AnnError::DimensionMismatch) })
        },
        Axis::RowColumn => {
            let (e1, ok1) = try_set_spec(d1, n);
            if !ok1 {
                (e1, d2, Err(AnnError::DimensionMismatch))
            } else {
                let (e2, ok2) = try_set_spec(d2, m);
                (e1, e2, if ok2 { Ok(()) } else { Err(AnnError::DimensionMismatch) })
            }
        },
        Axis::Pairwise => if n != m {
            (d1, d2, Err(AnnError::AxisViolation))
        } else {
            let (e1, ok) = try_set_spec(d1, n);
            (e1, d2, if ok { Ok(()) } else { Err(AnnError::DimensionMismatch) })
        },
    }
}

/// The column positions that a projection keeps, for an array of `ncols`
/// columns.
pub open spec fn projected_cols(axis: Axis, sel: Seq<SelectInfoElem>, ncols: nat) -> Seq<int> {
    match axis {
        Axis::Row => Seq::new(ncols, |j: int| j),
        Axis::RowColumn => sel[1].indices(ncols),
        Axis::Pairwise => sel[0].indices(ncols),
    }
}

/// The selection has the dimensionality of the axis kind and fits
/// dimensions of sizes `n1` and `n2`.
pub open spec fn selection_fits(axis: Axis, sel: Seq<SelectInfoElem>, n1: nat, n2: nat) -> bool {
    match axis {
        Axis::Row => sel.len() == 1 && sel[0].valid(n1),
        Axis::RowColumn => sel.len() == 2 && sel[0].valid(n1) && sel[1].valid(n2),
        Axis::Pairwise => sel.len() == 1 && sel[0].valid(n1),
    }
}

/// The size of the first (and for `RowColumn` the second) dimension after
/// a projection.
pub open spec fn projected_dim(axis: Axis, sel: Seq<SelectInfoElem>, k: int, n: nat) -> usize {
    if k == 1 && axis == Axis::RowColumn {
        sel[1].indices(n).len() as usize
    } else {
        sel[0].indices(n).len() as usize
    }
}

/// The name of an axis kind in descriptions.
pub open spec fn kind_name(axis: Axis) -> Seq<char> {
    match axis {
        Axis::Row => "row"@,
        Axis::RowColumn => "row/column"@,
        Axis::Pairwise => "pairwise"@,
    }
}

fn kind_string(axis: Axis) -> (r: String)
    ensures
        r@ == kind_name(axis),
{
    match axis {
        Axis::Row => "row".to_owned(),
        Axis::RowColumn => "row/column".to_owned(),
        Axis::Pairwise => "pairwise".to_owned(),
    }
}

/// `<prefix> (<kind>) with keys: ` and the names, separated by commas.
fn describe_keys(prefix: &str, axis: Axis, keys: &Vec<String>) -> (r: String)
    ensures
        r@ == prefix@ + " ("@ + kind_name(axis) + ") with keys: "@ + crate::text::join(
            strs(keys@),
            ", "@,
        ),
{
    let mut out = prefix.to_owned();
    out.append(" (");
    let k = kind_string(axis);
    out.append(k.as_str());
    out.append(") with keys: ");
    let joined = crate::text::join_strings(keys, ", ");
    out.append(joined.as_str());
    out
}

pub open spec fn dim_size(d: Option<usize>) -> nat {
    match d {
        Some(n) => n as nat,
        None => 0,
    }
}

/// The arrays of a collection, each aligned with the dimensions as its axis
/// kind asks.
#[derive(Debug)]
pub struct InnerAxisArrays {
    axis: Axis,
    data: Vec<(String, ArrayData)>,
}

impl InnerAxisArrays {
    pub closed spec fn entries(&self) -> Seq<(String, ArrayData)> {
        self.data@
    }

    pub closed spec fn kind(&self) -> Axis {
        self.axis
    }

    pub fn axis(&self) -> (r: Axis)
        ensures
            r == self.kind(),
    {
        self.axis
    }

    pub open spec fn wf(&self) -> bool {
        keys_unique(entry_keys(self.entries()))
    }

    /// A collection with no array.
    pub fn new_empty(axis: Axis) -> (r: Self)
        ensures
            r.kind() == axis,
            r.entries().len() == 0,
            r.wf(),
    {
        InnerAxisArrays { axis, data: Vec::new() }
    }

    /// `AxisArrays (<kind>) with keys: ` and the names, separated by commas.
    pub fn describe(&self) -> (r: String)
        ensures
            r@ == "AxisArrays"@ + " ("@ + kind_name(self.kind()) + ") with keys: "@ + crate::text::join(
                entry_keys(self.entries()),
                ", "@,
            ),
    {
        let keys = self.keys();
        describe_keys("AxisArrays", self.axis, &keys)
    }

    /// The first dimension, 0 when unset.
    pub fn size(&self, dim1: &Dim) -> (r: usize)
        ensures
            r == dim_size(dim1@),
    {
        dim1.get()
    }

    pub fn keys(&self) -> (r: Vec<String>)
        ensures
            strs(r@) == entry_keys(self.entries()),
    {
        key_list(&self.data)
    }

    /// The array named `key`.
    pub fn get(&self, key: &str) -> (r: Option<&ArrayData>)
        requires
            self.wf(),
        ensures
            match r {
                Some(a) => lookup(self.entries(), key@) == Some(*a),
                None => lookup(self.entries(), key@) is None,
            },
    {
        let k = key.to_owned();
        match find_key(&self.data, &k) {
            Some(i) => {
                proof {
                    crate::collection::lemma_entry_lookup(self.data@, i as int);
                }
                Some(&self.data[i].1)
            },
            None => None,
        }
    }

    /// Puts `data` under `key` once its shape fits the axis kind: the first
    /// dimension is set to its number of rows (and for `RowColumn` the second
    /// to its number of columns), and a `Pairwise` array must be square. A
    /// refused array changes no entry.
    pub fn add_data(&mut self, key: &str, data: ArrayData, dim1: &mut Dim, dim2: &mut Dim) -> (r:
        Result<(), AnnError>)
        requires
            old(self).wf(),
            all_conform(old(self).kind(), old(self).entries(), old(dim1)@, old(dim2)@),
            data.wf(),
        ensures
            final(self).kind() == old(self).kind(),
            final(self).wf(),
            all_conform(final(self).kind(), final(self).entries(), final(dim1)@, final(dim2)@),
            (final(dim1)@, final(dim2)@, r) == add_outcome(
                old(self).kind(),
                data.rows.len(),
                data.ncols,
                old(dim1)@,
                old(dim2)@,
            ),
            r is Ok ==> lookup(final(self).entries(), key@) == Some(data) && forall|k: Seq<char>|
                k != key@ ==> lookup(final(self).entries(), k) == lookup(old(self).entries(), k),
            r is Ok ==> entry_keys(final(self).entries()) == if entry_keys(
                old(self).entries(),
            ).contains(key@) {
                entry_keys(old(self).entries())
            } else {
                entry_keys(old(self).entries()).push(key@)
            },
            r is Err ==> final(self).entries() == old(self).entries(),
    {
        let (n, m) = data.shape();
        let ghost d1o = dim1@;
        let ghost d2o = dim2@;
        let ok = match self.axis {
            Axis::Row => dim1.try_set(n),
            Axis::RowColumn => match dim1.try_set(n) {
                Ok(()) => dim2.try_set(m),
                Err(e) => Err(e),
            },
            Axis::Pairwise => if n != m {
                Err(AnnError::AxisViolation)
            } else {
                dim1.try_set(n)
            },
        };
        proof {
            lemma_conform_extend(self.axis, self.data@, d1o, d2o, dim1@, dim2@);
        }
        if ok.is_err() {
            return ok;
        }
        let ghost before = self.data@;
        proof {
            lemma_conform_extend(self.kind(), before, old(dim1)@, old(dim2)@, dim1@, dim2@);
        }
        put(&mut self.data, key.to_owned(), data);
        proof {
            crate::collection::lemma_put_values(before, self.data@, key@, data);
            assert forall|i: int| 0 <= i < self.data@.len() implies #[trigger] conforms(
                self.kind(),
                self.data@[i].1,
                dim1@,
                dim2@,
            ) by {
                if self.data@[i].1 != data {
                    let j = choose|j: int| 0 <= j < before.len() && before[j].1 == self.data@[i].1;
                    assert(conforms(self.kind(), before[j].1, dim1@, dim2@));
                }
            }
        }
        Ok(())
    }

    /// Stacks the chunks into one array and puts it under `key` as
    /// `add_data` does. An array already under `key` is removed first, also
    /// when the new one is refused. Chunks that differ in encoding or number
    /// of columns give `EncodingMismatch` or `DimensionMismatch`.
    pub fn add_data_from_iter(
        &mut self,
        key: &str,
        chunks: Vec<ArrayData>,
        dim1: &mut Dim,
        dim2: &mut Dim,
    ) -> (r: Result<(), AnnError>)
        requires
            old(self).wf(),
            all_conform(old(self).kind(), old(self).entries(), old(dim1)@, old(dim2)@),
            forall|p: int| 0 <= p < chunks@.len() ==> (#[trigger] chunks@[p]).wf(),
        ensures
            final(self).kind() == old(self).kind(),
            final(self).wf(),
            all_conform(final(self).kind(), final(self).entries(), final(dim1)@, final(dim2)@),
            forall|k: Seq<char>|
                k != key@ ==> lookup(final(self).entries(), k) == lookup(old(self).entries(), k),
            r is Ok <==> (stack_ok(chunks@) && add_outcome(
                old(self).kind(),
                stacked_rows(chunks@),
                stacked_cols(chunks@),
                old(dim1)@,
                old(dim2)@,
            ).2 is Ok),
            stack_ok(chunks@) ==> (final(dim1)@, final(dim2)@) == (
                add_outcome(
                    old(self).kind(),
                    stacked_rows(chunks@),
                    stacked_cols(chunks@),
                    old(dim1)@,
                    old(dim2)@,
                ).0,
                add_outcome(
                    old(self).kind(),
                    stacked_rows(chunks@),
                    stacked_cols(chunks@),
                    old(dim1)@,
                    old(dim2)@,
                ).1,
            ),
            !stack_ok(chunks@) ==> final(dim1)@ == old(dim1)@ && final(dim2)@ == old(dim2)@,
            stack_ok(chunks@) ==> r == add_outcome(
                old(self).kind(),
                stacked_rows(chunks@),
                stacked_cols(chunks@),
                old(dim1)@,
                old(dim2)@,
            ).2,
            !stack_ok(chunks@) && same_encoding(chunks@) ==> r == Err::<(), AnnError>(
                AnnError::DimensionMismatch,
            ),
            !same_encoding(chunks@) ==> r == Err::<(), AnnError>(AnnError::EncodingMismatch),
            r is Ok ==> (lookup(final(self).entries(), key@) matches Some(a) && a.rows_view()
                == concat_rows(chunks@, chunks@.len() as int) && a.ncols == stacked_cols(chunks@)
                && a.encoding == stack_encoding(chunks@)),
            r is Err ==> lookup(final(self).entries(), key@) is None,
    {
        let k = key.to_owned();
        let ghost before = self.data@;
        let old_one = take(&mut self.data, &k);
        proof {
            if old_one is Some {
                let i = choose|i: int|
                    0 <= i < before.len() && before[i].0@ == k@ && self.data@ == before.remove(i);
                lemma_conform_remove(self.kind(), before, i, dim1@, dim2@);
            }
        }
        let stacked = match StackedArrayElem::new(chunks) {
            Ok(s) => s,
            Err(e) => {
                return Err(e);
            },
        };
        let data = stacked.data();
        proof {
            crate::stacked::lemma_stacked_rows_len(chunks@, chunks@.len() as int);
            assert(data.rows@.len() == data.rows_view().len());
        }
        let r = self.add_data(key, data, dim1, dim2);
        r
    }

    /// Removes the array named `key`, if there is one.
    pub fn remove_data(&mut self, key: &str)
        requires
            old(self).wf(),
        ensures
            final(self).kind() == old(self).kind(),
            final(self).wf(),
            lookup(final(self).entries(), key@) is None,
            forall|k: Seq<char>|
                k != key@ ==> lookup(final(self).entries(), k) == lookup(old(self).entries(), k),
            forall|d1: Option<usize>, d2: Option<usize>|
                all_conform(old(self).kind(), old(self).entries(), d1, d2) ==> #[trigger] all_conform(
                    final(self).kind(),
                    final(self).entries(),
                    d1,
                    d2,
                ),
    {
        let k = key.to_owned();
        let ghost before = self.data@;
        let r = take(&mut self.data, &k);
        proof {
            if r is Some {
                let i = choose|i: int|
                    0 <= i < before.len() && before[i].0@ == k@ && self.data@ == before.remove(i);
                assert forall|d1: Option<usize>, d2: Option<usize>|
                    all_conform(self.axis, before, d1, d2) implies #[trigger] all_conform(
                    self.axis,
                    self.data@,
                    d1,
                    d2,
                ) by {
                    lemma_conform_remove(self.axis, before, i, d1, d2);
                }
            }
        }
    }

    /// A copy of every array, in order, for writing to another location.
    pub fn export(&self) -> (r: InnerAxisArrays)
        requires
            self.wf(),
        ensures
            r.kind() == self.kind(),
            r.wf(),
            entry_keys(r.entries()) == entry_keys(self.entries()),
            forall|i: int|
                0 <= i < r.entries().len() ==> copy_of(
                    #[trigger] r.entries()[i].1,
                    self.entries()[i].1,
                ) || !self.entries()[i].1.wf(),
            forall|d1: Option<usize>, d2: Option<usize>|
                all_conform(self.kind(), self.entries(), d1, d2) ==> #[trigger] all_conform(
                    self.kind(),
                    r.entries(),
                    d1,
                    d2,
                ),
    {
        let mut out: Vec<(String, ArrayData)> = Vec::new();
        let mut i: usize = 0;
        while i < self.data.len()
            invariant
                i <= self.data@.len(),
                out@.len() == i,
                forall|t: int| 0 <= t < i ==> (#[trigger] out@[t]).0@ == self.data@[t].0@,
                forall|t: int|
                    0 <= t < i ==> (#[trigger] out@[t]).1.encoding == self.data@[t].1.encoding
                        && out@[t].1.ncols == self.data@[t].1.ncols && out@[t].1.rows_view()
                        == self.data@[t].1.rows_view() && (self.data@[t].1.wf() ==> out@[t].1.wf()),
            decreases self.data@.len() - i,
        {
            out.push((self.data[i].0.clone(), self.data[i].1.copy()));
            i = i + 1;
        }
        assert(entry_keys(out@) =~= entry_keys(self.data@));
        proof {
            assert forall|t: int| 0 <= t < out@.len() implies (#[trigger] out@[t]).1.rows.len()
                == self.data@[t].1.rows.len() by {
                assert(out@[t].1.rows_view().len() == self.data@[t].1.rows_view().len());
            }
            assert forall|d1: Option<usize>, d2: Option<usize>|
                all_conform(self.axis, self.data@, d1, d2) implies #[trigger] all_conform(
                self.axis,
                out@,
                d1,
                d2,
            ) by {
                assert forall|t: int| 0 <= t < out@.len() implies #[trigger] conforms(
                    self.axis,
                    out@[t].1,
                    d1,
                    d2,
                ) by {
                    assert(conforms(self.axis, self.data@[t].1, d1, d2));
                }
            }
        }
        InnerAxisArrays { axis: self.axis, data: out }
    }

    /// Each array restricted by the selection: on the rows for `Row`, on rows
    /// and columns for `RowColumn`, and by the same selection on rows and
    /// columns for `Pairwise`.
    fn project(&self, sel: &Vec<SelectInfoElem>, n1: usize, n2: usize) -> (r: Vec<(String, ArrayData)>)
        requires
            self.wf(),
            all_conform(self.kind(), self.entries(), Some(n1), Some(n2)),
            selection_fits(self.kind(), sel@, n1 as nat, n2 as nat),
        ensures
            entry_keys(r@) == entry_keys(self.entries()),
            all_conform(
                self.kind(),
                r@,
                Some(projected_dim(self.kind(), sel@, 0, n1 as nat)),
                Some(projected_dim(self.kind(), sel@, 1, n2 as nat)),
            ),
            forall|i: int|
                0 <= i < r@.len() ==> (#[trigger] r@[i]).1.rows_view() == select_rows(
                    self.entries()[i].1.rows_view(),
                    sel@[0].indices(n1 as nat),
                    projected_cols(self.kind(), sel@, self.entries()[i].1.ncols as nat),
                ),
    {
        let full = SelectInfoElem::full();
        let mut out: Vec<(String, ArrayData)> = Vec::new();
        let mut i: usize = 0;
        while i < self.data.len()
            invariant
                self.wf(),
                all_conform(self.kind(), self.entries(), Some(n1), Some(n2)),
                selection_fits(self.kind(), sel@, n1 as nat, n2 as nat),
                full.spec_is_full(),
                i <= self.data@.len(),
                out@.len() == i,
                forall|t: int| 0 <= t < i ==> (#[trigger] out@[t]).0@ == self.data@[t].0@,
                forall|t: int|
                    0 <= t < i ==> conforms(
                        self.kind(),
                        (#[trigger] out@[t]).1,
                        Some(projected_dim(self.kind(), sel@, 0, n1 as nat)),
                        Some(projected_dim(self.kind(), sel@, 1, n2 as nat)),
                    ),
                forall|t: int|
                    0 <= t < i ==> (#[trigger] out@[t]).1.rows_view() == select_rows(
                        self.data@[t].1.rows_view(),
                        sel@[0].indices(n1 as nat),
                        projected_cols(self.kind(), sel@, self.data@[t].1.ncols as nat),
                    ),
            decreases self.data@.len() - i,
        {
            let a = &self.data[i].1;
            assert(conforms(self.kind(), self.data@[i as int].1, Some(n1), Some(n2)));
            let b = match self.axis {
                Axis::Row => {
                    proof {
                        lemma_full_indices(&full, a.ncols as nat);
                    }
                    a.select(&sel[0], &full)
                },
                Axis::RowColumn => a.select(&sel[0], &sel[1]),
                Axis::Pairwise => a.select(&sel[0], &sel[0]),
            };
            proof {
                let av = self.data@[i as int].1;
                assert(b.rows_view().len() == b.rows@.len());
                assert(av.rows@.len() == n1);
                if self.axis != Axis::Row {
                    assert(av.ncols == if self.axis == Axis::RowColumn { n2 } else { n1 });
                }
            }
            out.push((self.data[i].0.clone(), b));
            i = i + 1;
        }
        assert(entry_keys(out@) =~= entry_keys(self.data@));
        out
    }

    /// The arrays restricted by the selection, as a new collection of the
    /// same axis kind. A selection that is full on every dimension is a plain
    /// `export`, whatever its number of dimensions. Otherwise it fails with
    /// `SelectionError` when it does not fit the axis kind or the dimensions.
    pub fn export_select(&self, sel: &Vec<SelectInfoElem>, dim1: &Dim, dim2: &Dim) -> (r: Result<
        InnerAxisArrays,
        AnnError,
    >)
        requires
            self.wf(),
            all_conform(self.kind(), self.entries(), dim1@, dim2@),
        ensures
            r is Ok <==> (all_full(sel@) || selection_fits(
                self.kind(),
                sel@,
                dim_size(dim1@),
                dim_size(dim2@),
            )),
            r is Err ==> r == Err::<InnerAxisArrays, AnnError>(AnnError::SelectionError),
            r matches Ok(x) ==> x.kind() == self.kind() && x.wf() && entry_keys(x.entries())
                == entry_keys(self.entries()),
            all_full(sel@) ==> (r matches Ok(x) && all_conform(x.kind(), x.entries(), dim1@, dim2@)
                && forall|i: int|
                0 <= i < x.entries().len() ==> copy_of(
                    #[trigger] x.entries()[i].1,
                    self.entries()[i].1,
                )),
            selection_fits(self.kind(), sel@, dim_size(dim1@), dim_size(dim2@)) ==> (r matches Ok(
                x,
            ) && all_conform(
                x.kind(),
                x.entries(),
                Some(projected_dim(self.kind(), sel@, 0, dim_size(dim1@))),
                Some(projected_dim(self.kind(), sel@, 1, dim_size(dim2@))),
            ) && forall|i: int|
                0 <= i < x.entries().len() ==> (#[trigger] x.entries()[i]).1.rows_view()
                    == select_rows(
                    self.entries()[i].1.rows_view(),
                    sel@[0].indices(dim_size(dim1@)),
                    projected_cols(self.kind(), sel@, self.entries()[i].1.ncols as nat),
                )),
    {
        let n1 = dim1.get();
        let n2 = dim2.get();
        proof {
            lemma_conform_sizes(self.kind(), self.entries(), dim1@, dim2@);
        }
        if all_full_sel(sel) {
            let x = self.export();
            proof {
                assert(entry_keys(x.entries()).len() == entry_keys(self.data@).len());
                assert forall|i: int| 0 <= i < x.entries().len() implies copy_of(
                    #[trigger] x.entries()[i].1,
                    self.entries()[i].1,
                ) by {
                    assert(conforms(self.axis, self.data@[i].1, dim1@, dim2@));
                }
                if selection_fits(self.axis, sel@, n1 as nat, n2 as nat) {
                    lemma_full_indices(&sel@[0], n1 as nat);
                    if self.axis == Axis::RowColumn {
                        lemma_full_indices(&sel@[1], n2 as nat);
                    }
                    assert forall|i: int| 0 <= i < x.entries().len() implies (#[trigger] x.entries()[i]).1.rows_view()
                        == select_rows(
                        self.entries()[i].1.rows_view(),
                        sel@[0].indices(n1 as nat),
                        projected_cols(self.kind(), sel@, self.entries()[i].1.ncols as nat),
                    ) by {
                        let a = self.data@[i].1;
                        assert(conforms(self.axis, a, Some(n1), Some(n2)));
                        assert(copy_of(x.entries()[i].1, a));
                        lemma_select_all(a.rows_view(), a.ncols as nat);
                        assert(projected_cols(self.axis, sel@, a.ncols as nat) =~= Seq::new(
                            a.ncols as nat,
                            |j: int| j,
                        ));
                        assert(sel@[0].indices(n1 as nat) =~= Seq::new(a.rows_view().len(), |j: int| j));
                    }
                    assert forall|i: int| 0 <= i < x.entries().len() implies #[trigger] conforms(
                        self.axis,
                        x.entries()[i].1,
                        Some(projected_dim(self.kind(), sel@, 0, n1 as nat)),
                        Some(projected_dim(self.kind(), sel@, 1, n2 as nat)),
                    ) by {
                        let a = self.data@[i].1;
                        assert(conforms(self.axis, a, Some(n1), Some(n2)));
                        assert(copy_of(x.entries()[i].1, a));
                        assert(x.entries()[i].1.rows_view().len() == a.rows_view().len());
                    }
                }
            }
            return Ok(x);
        }
        if !fits(self.axis, sel, n1, n2) {
            return Err(AnnError::SelectionError);
        }
        let data = self.project(sel, n1, n2);
        Ok(InnerAxisArrays { axis: self.axis, data })
    }

    /// Restricts every array in place, then sets the dimensions to the
    /// sizes that the selection picks. Fails with `SelectionError`, changing
    /// nothing, when the selection does not fit the axis kind or the
    /// dimensions.
    pub fn subset(&mut self, sel: &Vec<SelectInfoElem>, dim1: &mut Dim, dim2: &mut Dim) -> (r: Result<
        (),
        AnnError,
    >)
        requires
            old(self).wf(),
            all_conform(old(self).kind(), old(self).entries(), old(dim1)@, old(dim2)@),
        ensures
            final(self).kind() == old(self).kind(),
            final(self).wf(),
            r is Ok <==> selection_fits(old(self).kind(), sel@, dim_size(old(dim1)@), dim_size(old(dim2)@)),
            r is Err ==> r == Err::<(), AnnError>(AnnError::SelectionError) && final(self).entries()
                == old(self).entries() && final(dim1)@ == old(dim1)@ && final(dim2)@ == old(dim2)@,
            r is Ok ==> {
                &&& entry_keys(final(self).entries()) == entry_keys(old(self).entries())
                &&& final(dim1)@ == Some(projected_dim(old(self).kind(), sel@, 0, dim_size(old(dim1)@)))
                &&& final(dim2)@ == if old(self).kind() == Axis::RowColumn {
                    Some(projected_dim(old(self).kind(), sel@, 1, dim_size(old(dim2)@)))
                } else {
                    old(dim2)@
                }
                &&& forall|i: int|
                    0 <= i < final(self).entries().len() ==> (#[trigger] final(self).entries()[i]).1.rows_view()
                        == select_rows(
                        old(self).entries()[i].1.rows_view(),
                        sel@[0].indices(dim_size(old(dim1)@)),
                        projected_cols(old(self).kind(), sel@, old(self).entries()[i].1.ncols as nat),
                    )
            },
            all_conform(final(self).kind(), final(self).entries(), final(dim1)@, final(dim2)@),
    {
        let n1 = dim1.get();
        let n2 = dim2.get();
        if !fits(self.axis, sel, n1, n2) {
            return Err(AnnError::SelectionError);
        }
        proof {
            lemma_conform_sizes(self.kind(), self.entries(), dim1@, dim2@);
        }
        let data = self.project(sel, n1, n2);
        let len0 = sel[0].len(n1);
        let ghost second = projected_dim(self.axis, sel@, 1, n2 as nat);
        self.data = data;
        dim1.set(len0);
        if self.axis == Axis::RowColumn {
            let len1 = sel[1].len(n2);
            dim2.set(len1);
        }
        proof {
            assert forall|t: int| 0 <= t < self.data@.len() implies #[trigger] conforms(
                self.axis,
                self.data@[t].1,
                dim1@,
                dim2@,
            ) by {
                assert(conforms(self.axis, self.data@[t].1, Some(len0), Some(second)));
            }
        }
        Ok(())
    }
}

proof fn lemma_conform_remove(
    axis: Axis,
    entries: Seq<(String, ArrayData)>,
    i: int,
    d1: Option<usize>,
    d2: Option<usize>,
)
    requires
        0 <= i < entries.len(),
        all_conform(axis, entries, d1, d2),
    ensures
        all_conform(axis, entries.remove(i), d1, d2),
{
    assert forall|t: int| 0 <= t < entries.remove(i).len() implies #[trigger] conforms(
        axis,
        entries.remove(i)[t].1,
        d1,
        d2,
    ) by {
        if t < i {
            assert(entries.remove(i)[t] == entries[t]);
        } else {
            assert(entries.remove(i)[t] == entries[t + 1]);
        }
    }
}

/// Arrays that fit set dimensions still fit once the dimensions that were
/// set keep their values.
pub proof fn lemma_conform_extend(
    axis: Axis,
    entries: Seq<(String, ArrayData)>,
    d1: Option<usize>,
    d2: Option<usize>,
    e1: Option<usize>,
    e2: Option<usize>,
)
    requires
        all_conform(axis, entries, d1, d2),
        d1 is Some ==> e1 == d1,
        d2 is Some ==> e2 == d2,
    ensures
        all_conform(axis, entries, e1, e2),
{
    assert forall|t: int| 0 <= t < entries.len() implies #[trigger] conforms(
        axis,
        entries[t].1,
        e1,
        e2,
    ) by {
        assert(conforms(axis, entries[t].1, d1, d2));
    }
}

/// For the kinds other than `RowColumn`, the second dimension does not
/// matter.
pub proof fn lemma_conform_second_free(
    axis: Axis,
    entries: Seq<(String, ArrayData)>,
    d1: Option<usize>,
    d2: Option<usize>,
    e2: Option<usize>,
)
    requires
        axis != Axis::RowColumn,
        all_conform(axis, entries, d1, d2),
    ensures
        all_conform(axis, entries, d1, e2),
{
    assert forall|t: int| 0 <= t < entries.len() implies #[trigger] conforms(
        axis,
        entries[t].1,
        d1,
        e2,
    ) by {
        assert(conforms(axis, entries[t].1, d1, d2));
    }
}

/// Arrays that fit the dimensions fit their sizes.
proof fn lemma_conform_sizes(
    axis: Axis,
    entries: Seq<(String, ArrayData)>,
    d1: Option<usize>,
    d2: Option<usize>,
)
    requires
        all_conform(axis, entries, d1, d2),
    ensures
        all_conform(axis, entries, Some(dim_size(d1) as usize), Some(dim_size(d2) as usize)),
{
    assert forall|t: int| 0 <= t < entries.len() implies #[trigger] conforms(
        axis,
        entries[t].1,
        Some(dim_size(d1) as usize),
        Some(dim_size(d2) as usize),
    ) by {
        assert(conforms(axis, entries[t].1, d1, d2));
    }
}

/// The chunks can be stacked.
pub open spec fn stack_ok(chunks: Seq<ArrayData>) -> bool {
    same_encoding(chunks) && same_ncols(chunks) && size_prefix(row_counts(chunks), chunks.len() as int)
        <= usize::MAX
}

/// Number of rows of the stacked chunks.
pub open spec fn stacked_rows(chunks: Seq<ArrayData>) -> usize {
    size_prefix(row_counts(chunks), chunks.len() as int) as usize
}

/// Number of columns of the stacked chunks: that of the first, 0 when there
/// is none.
pub open spec fn stacked_cols(chunks: Seq<ArrayData>) -> usize {
    if chunks.len() == 0 {
        0
    } else {
        chunks[0].ncols
    }
}

/// Every selection of the list is full.
pub open spec fn all_full(sel: Seq<SelectInfoElem>) -> bool {
    forall|i: int| 0 <= i < sel.len() ==> (#[trigger] sel[i]).spec_is_full()
}

fn all_full_sel(sel: &Vec<SelectInfoElem>) -> (r: bool)
    ensures
        r == all_full(sel@),
{
    let mut i: usize = 0;
    while i < sel.len()
        invariant
            i <= sel@.len(),
            forall|t: int| 0 <= t < i ==> (#[trigger] sel@[t]).spec_is_full(),
        decreases sel@.len() - i,
    {
        if !sel[i].is_full() {
            return false;
        }
        i = i + 1;
    }
    true
}

/// Selecting every row and every column gives the rows back.
proof fn lemma_select_all(rows: Seq<Seq<i64>>, m: nat)
    requires
        forall|i: int| 0 <= i < rows.len() ==> (#[trigger] rows[i]).len() == m,
    ensures
        select_rows(rows, Seq::new(rows.len(), |i: int| i), Seq::new(m, |j: int| j)) == rows,
{
    let s = select_rows(rows, Seq::new(rows.len(), |i: int| i), Seq::new(m, |j: int| j));
    assert forall|i: int| 0 <= i < rows.len() implies s[i] == rows[i] by {
        assert(crate::array::pick(rows[i], Seq::new(m, |j: int| j)) =~= rows[i]);
    }
    assert(s =~= rows);
}

/// Whether the selection fits the axis kind and the dimensions.
fn fits(axis: Axis, sel: &Vec<SelectInfoElem>, n1: usize, n2: usize) -> (r: bool)
    ensures
        r == selection_fits(axis, sel@, n1 as nat, n2 as nat),
{
    match axis {
        Axis::Row | Axis::Pairwise => sel.len() == 1 && sel[0].is_valid(n1),
        Axis::RowColumn => sel.len() == 2 && sel[0].is_valid(n1) && sel[1].is_valid(n2),
    }
}

/// A collection of axis-aligned arrays; it may be absent altogether, as
/// after `clear`.
#[derive(Debug)]
pub struct AxisArrays(Option<InnerAxisArrays>);

impl AxisArrays {
    pub closed spec fn slot(&self) -> Option<InnerAxisArrays> {
        self.0
    }

    /// The arrays, none when the collection is absent.
    pub open spec fn entries(&self) -> Seq<(String, ArrayData)> {
        match self.slot() {
            Some(c) => c.entries(),
            None => Seq::empty(),
        }
    }

    /// The collection is present, of axis kind `axis`, with distinct names,
    /// and its arrays fit the dimensions `d1` and `d2`.
    pub open spec fn aligned(&self, axis: Axis, d1: Option<usize>, d2: Option<usize>) -> bool {
        &&& self.slot() matches Some(c)
        &&& c.kind() == axis
        &&& c.wf()
        &&& all_conform(axis, c.entries(), d1, d2)
    }

    /// An absent collection.
    pub fn empty() -> (r: Self)
        ensures
            r.slot() is None,
    {
        AxisArrays(None)
    }

    /// A present collection of the given kind with no array.
    pub fn new_empty(axis: Axis) -> (r: Self)
        ensures
            r.aligned(axis, None, None),
            forall|d1: Option<usize>, d2: Option<usize>| #[trigger] r.aligned(axis, d1, d2),
            r.entries().len() == 0,
    {
        AxisArrays(Some(InnerAxisArrays::new_empty(axis)))
    }

    /// Absent, or present with no array.
    pub fn is_empty(&self) -> (r: bool)
        ensures
            r == (self.entries().len() == 0),
    {
        match &self.0 {
            None => true,
            Some(c) => c.data.len() == 0,
        }
    }

    /// A collection of the given arrays. Their first dimensions must agree
    /// (`DimensionMismatch`), a `Pairwise` array must be square
    /// (`AxisViolation`) and `RowColumn` arrays must agree on their second
    /// dimension (`DimensionMismatch`); then `dim1` (and for `RowColumn`
    /// `dim2`) is set from the first array. Where a name occurs twice, the
    /// later array is kept.
    pub fn new(axis: Axis, entries: Vec<(String, ArrayData)>, dim1: &mut Dim, dim2: &mut Dim) -> (r:
        Result<Self, AnnError>)
        requires
            forall|i: int| 0 <= i < entries@.len() ==> (#[trigger] entries@[i]).1.wf(),
        ensures
            r matches Ok(x) ==> x.aligned(axis, final(dim1)@, final(dim2)@)
                && entry_keys(x.entries()).to_set() == entry_keys(entries@).to_set(),
            r matches Ok(x) ==> forall|i: int|
                0 <= i < entries@.len() && (forall|j: int|
                    i < j < entries@.len() ==> entries@[j].0@ != entries@[i].0@) ==> lookup(
                    x.entries(),
                    entries@[i].0@,
                ) == Some(#[trigger] entries@[i].1),
            entries@.len() == 0 ==> final(dim1)@ == old(dim1)@ && final(dim2)@ == old(dim2)@,
            r is Err ==> final(dim1)@ == old(dim1)@ || axis == Axis::RowColumn,
            r is Ok <==> (shapes_agree(axis, entries@) && (entries@.len() > 0 ==> add_outcome(
                axis,
                entries@[0].1.rows.len(),
                entries@[0].1.ncols,
                old(dim1)@,
                old(dim2)@,
            ).2 is Ok)),
    {
        let ghost all = entries@;
        let mut i: usize = 0;
        while i < entries.len()
            invariant
                i <= entries@.len(),
                forall|t: int| 0 <= t < i ==> shape_agrees(axis, entries@[0].1, #[trigger] entries@[t].1),
            decreases entries@.len() - i,
        {
            let a = &entries[i].1;
            let f = &entries[0].1;
            if a.rows.len() != f.rows.len() {
                return Err(AnnError::DimensionMismatch);
            }
            match axis {
                Axis::Pairwise => {
                    if a.rows.len() != a.ncols {
                        return Err(AnnError::AxisViolation);
                    }
                },
                Axis::RowColumn => {
                    if a.ncols != f.ncols {
                        return Err(AnnError::DimensionMismatch);
                    }
                },
                Axis::Row => {},
            }
            i = i + 1;
        }
        let mut inner = InnerAxisArrays::new_empty(axis);
        if entries.len() > 0 {
            let n = entries[0].1.rows.len();
            let m = entries[0].1.ncols;
            match axis {
                Axis::Row | Axis::Pairwise => {
                    dim1.try_set(n)?;
                },
                Axis::RowColumn => {
                    dim1.try_set(n)?;
                    dim2.try_set(m)?;
                },
            }
        }
        let ghost d1 = dim1@;
        let ghost d2 = dim2@;
        let total = entries.len();
        let mut src = entries;
        let mut rev: Vec<(String, ArrayData)> = Vec::new();
        while src.len() > 0
            invariant
                src@ + rev@.reverse() == all,
            decreases src@.len(),
        {
            let e = src.pop().unwrap();
            proof {
                assert(src@.push(e) + rev@.reverse() == all);
            }
            let ghost before = rev@;
            rev.push(e);
            proof {
                assert(rev@.reverse() =~= seq![e] + before.reverse());
                assert(src@ + rev@.reverse() =~= src@.push(e) + before.reverse());
            }
        }
        assert(rev@.reverse() =~= all);
        let ghost n = all.len();
        let mut k: usize = 0;
        proof {
            assert(entry_keys(inner.data@).to_set() =~= entry_keys(all.subrange(0, 0)).to_set());
        }
        while rev.len() > 0
            invariant
                n == all.len(),
                n == total,
                rev@.len() + k == n,
                forall|t: int| 0 <= t < rev@.len() ==> rev@[t] == all[n - 1 - t],
                inner.axis == axis,
                inner.wf(),
                all_conform(axis, inner.data@, d1, d2),
                forall|t: int| 0 <= t < n ==> #[trigger] conforms(axis, all[t].1, d1, d2),
                entry_keys(inner.data@).to_set() == entry_keys(all.subrange(0, k as int)).to_set(),
                forall|t: int|
                    0 <= t < k && (forall|j: int| t < j < k ==> all[j].0@ != all[t].0@) ==> lookup(
                        inner.data@,
                        all[t].0@,
                    ) == Some(#[trigger] all[t].1),
            decreases rev@.len(),
        {
            let (key, v) = rev.pop().unwrap();
            let ghost kv = key@;
            let ghost prev = inner.data@;
            proof {
                assert(all[k as int] == (key, v));
                assert(conforms(axis, v, d1, d2));
            }
            put(&mut inner.data, key, v);
            proof {
                let ks = entry_keys(all.subrange(0, k as int + 1));
                assert(ks =~= entry_keys(all.subrange(0, k as int)).push(kv));
                entry_keys(all.subrange(0, k as int)).lemma_push_to_set_commute(kv);
                entry_keys(prev).lemma_push_to_set_commute(kv);
                if entry_keys(prev).contains(kv) {
                    assert(entry_keys(prev).to_set().insert(kv) =~= entry_keys(prev).to_set());
                }
                crate::collection::lemma_put_values(prev, inner.data@, kv, v);
                assert forall|t: int| 0 <= t < inner.data@.len() implies #[trigger] conforms(
                    axis,
                    inner.data@[t].1,
                    d1,
                    d2,
                ) by {
                    if inner.data@[t].1 != v {
                        let j = choose|j: int| 0 <= j < prev.len() && prev[j].1 == inner.data@[t].1;
                        assert(conforms(axis, prev[j].1, d1, d2));
                    }
                }
            }
            k = k + 1;
        }
        assert(all.subrange(0, n as int) =~= all);
        Ok(AxisArrays(Some(inner)))
    }

    /// Empties the collection: it becomes absent.
    pub fn clear(&mut self)
        ensures
            final(self).slot() is None,
    {
        self.0 = None;
    }

    /// The collection that holds the given arrays.
    pub fn from_inner(inner: InnerAxisArrays) -> (r: Self)
        ensures
            r.slot() == Some(inner),
    {
        AxisArrays(Some(inner))
    }

    /// The collection's arrays, when it is present.
    pub fn inner(&self) -> (r: Option<&InnerAxisArrays>)
        ensures
            match r {
                Some(c) => self.slot() == Some(*c),
                None => self.slot() is None,
            },
    {
        match &self.0 {
            Some(c) => Some(c),
            None => None,
        }
    }

    /// The names of the arrays, none when the collection is absent.
    pub fn keys(&self) -> (r: Vec<String>)
        ensures
            strs(r@) == entry_keys(self.entries()),
    {
        match &self.0 {
            Some(c) => c.keys(),
            None => {
                let r: Vec<String> = Vec::new();
                assert(strs(r@) =~= entry_keys(self.entries()));
                r
            },
        }
    }

    /// `InnerAxisArrays::add_data` on a present collection.
    pub fn add_data(&mut self, key: &str, data: ArrayData, dim1: &mut Dim, dim2: &mut Dim) -> (r:
        Result<(), AnnError>)
        requires
            old(self).slot() is Some,
            old(self).aligned(old(self).slot()->0.kind(), old(dim1)@, old(dim2)@),
            data.wf(),
        ensures
            final(self).aligned(old(self).slot()->0.kind(), final(dim1)@, final(dim2)@),
            (final(dim1)@, final(dim2)@, r) == add_outcome(
                old(self).slot()->0.kind(),
                data.rows.len(),
                data.ncols,
                old(dim1)@,
                old(dim2)@,
            ),
            r is Ok ==> lookup(final(self).entries(), key@) == Some(data) && forall|k: Seq<char>|
                k != key@ ==> lookup(final(self).entries(), k) == lookup(old(self).entries(), k),
            r is Err ==> final(self).entries() == old(self).entries(),
    {
        let mut c = self.0.take().unwrap();
        let r = c.add_data(key, data, dim1, dim2);
        self.0 = Some(c);
        r
    }

    /// `InnerAxisArrays::remove_data` on a present collection.
    pub fn remove_data(&mut self, key: &str)
        requires
            old(self).slot() is Some,
            old(self).slot()->0.wf(),
        ensures
            final(self).slot() is Some,
            final(self).slot()->0.kind() == old(self).slot()->0.kind(),
            final(self).slot()->0.wf(),
            lookup(final(self).entries(), key@) is None,
            forall|k: Seq<char>|
                k != key@ ==> lookup(final(self).entries(), k) == lookup(old(self).entries(), k),
            forall|d1: Option<usize>, d2: Option<usize>|
                old(self).aligned(old(self).slot()->0.kind(), d1, d2) ==> #[trigger] final(self).aligned(
                    old(self).slot()->0.kind(),
                    d1,
                    d2,
                ),
    {
        let mut c = self.0.take().unwrap();
        c.remove_data(key);
        self.0 = Some(c);
    }
}

/// Two arrays agree on the dimensions that the axis kind ties together.
pub open spec fn shape_agrees(axis: Axis, first: ArrayData, a: ArrayData) -> bool {
    &&& a.rows.len() == first.rows.len()
    &&& axis == Axis::Pairwise ==> a.rows.len() == a.ncols
    &&& axis == Axis::RowColumn ==> a.ncols == first.ncols
}

pub open spec fn shapes_agree(axis: Axis, entries: Seq<(String, ArrayData)>) -> bool {
    forall|i: int| 0 <= i < entries.len() ==> shape_agrees(axis, entries[0].1, #[trigger] entries[i].1)
}

/// Arrays stacked across several collections, one stacked array per name,
/// for reading only.
#[derive(Debug)]
pub struct StackedAxisArrays {
    axis: Axis,
    data: Vec<(String, StackedArrayElem)>,
}

impl StackedAxisArrays {
    pub closed spec fn kind(&self) -> Axis {
        self.axis
    }

    pub closed spec fn entries(&self) -> Seq<(String, StackedArrayElem)> {
        self.data@
    }

    pub open spec fn wf(&self) -> bool {
        &&& keys_unique(entry_keys(self.entries()))
        &&& forall|i: int| 0 <= i < self.entries().len() ==> (#[trigger] self.entries()[i]).1.wf()
    }

    /// A collection with no stacked array.
    pub fn empty(axis: Axis) -> (r: Self)
        ensures
            r.kind() == axis,
            r.entries().len() == 0,
            r.wf(),
    {
        StackedAxisArrays { axis, data: Vec::new() }
    }

    pub fn axis(&self) -> (r: Axis)
        ensures
            r == self.kind(),
    {
        self.axis
    }

    /// `Stacked AxisArrays (<kind>) with keys: ` and the names, separated
    /// by commas.
    pub fn describe(&self) -> (r: String)
        ensures
            r@ == "Stacked AxisArrays"@ + " ("@ + kind_name(self.kind()) + ") with keys: "@
                + crate::text::join(entry_keys(self.entries()), ", "@),
    {
        let keys = self.keys();
        describe_keys("Stacked AxisArrays", self.axis, &keys)
    }

    pub fn contains_key(&self, key: &str) -> (r: bool)
        ensures
            r == entry_keys(self.entries()).contains(key@),
    {
        let k = key.to_owned();
        match find_key(&self.data, &k) {
            Some(i) => {
                assert(entry_keys(self.data@)[i as int] == key@);
                true
            },
            None => {
                assert(!entry_keys(self.data@).contains(key@)) by {
                    if entry_keys(self.data@).contains(key@) {
                        let t = choose|t: int|
                            0 <= t < entry_keys(self.data@).len() && entry_keys(self.data@)[t]
                                == key@;
                        assert(self.data@[t].0@ == key@);
                    }
                }
                false
            },
        }
    }

    pub fn keys(&self) -> (r: Vec<String>)
        ensures
            strs(r@) == entry_keys(self.entries()),
    {
        key_list(&self.data)
    }

    /// The stacked array named `key`.
    pub fn get(&self, key: &str) -> (r: Option<&StackedArrayElem>)
        requires
            self.wf(),
        ensures
            match r {
                Some(a) => lookup(self.entries(), key@) == Some(*a),
                None => lookup(self.entries(), key@) is None,
            },
    {
        let k = key.to_owned();
        match find_key(&self.data, &k) {
            Some(i) => {
                proof {
                    crate::collection::lemma_entry_lookup(self.data@, i as int);
                }
                Some(&self.data[i].1)
            },
            None => None,
        }
    }

    /// Stacks, name by name, the arrays of several collections of the kind
    /// `axis`. When one of the collections is absent the result is empty;
    /// when one is of another kind the result is `AxisViolation`. A name
    /// is stacked when every collection holds it and the arrays under it
    /// can be stacked (same encoding and number of columns); other names are
    /// left out.
    pub fn new(axis: Axis, arrays: &Vec<&AxisArrays>) -> (r: Result<Self, AnnError>)
        requires
            forall|p: int|
                0 <= p < arrays@.len() ==> ((#[trigger] arrays@[p]).slot() matches Some(c) ==> c.wf()
                    && forall|i: int| 0 <= i < c.entries().len() ==> (#[trigger] c.entries()[i]).1.wf()),
        ensures
            r is Err <==> (forall|p: int| 0 <= p < arrays@.len() ==> (#[trigger] arrays@[p]).slot() is Some)
                && exists|p: int| 0 <= p < arrays@.len() && (#[trigger] arrays@[p]).slot()->0.kind() != axis,
            r is Err ==> r == Err::<Self, AnnError>(AnnError::AxisViolation),
            r matches Ok(x) ==> {
                &&& x.kind() == axis
                &&& x.wf()
                &&& forall|i: int|
                    0 <= i < x.entries().len() ==> stackable(arrays@, x.entries()[i].0@) && (forall|p: int|
                        0 <= p < arrays@.len() ==> lookup(
                            (#[trigger] arrays@[p]).entries(),
                            x.entries()[i].0@,
                        ) is Some) && (#[trigger] x.entries()[i]).1@.0 == concat_rows(
                        stack_of(arrays@, x.entries()[i].0@),
                        arrays@.len() as int,
                    )
                &&& arrays@.len() > 0 && (forall|p: int| 0 <= p < arrays@.len() ==> (#[trigger] arrays@[p]).slot() is Some) ==>
                    forall|k: Seq<char>|
                        #![trigger stack_of(arrays@, k)]
                        entry_keys(arrays@[0].entries()).contains(k) && stackable(arrays@, k)
                            ==> entry_keys(x.entries()).contains(k)
            },
    {
        let np = arrays.len();
        let mut p: usize = 0;
        while p < np
            invariant
                np == arrays@.len(),
                p <= np,
                forall|t: int| 0 <= t < p ==> (#[trigger] arrays@[t]).slot() is Some,
            decreases np - p,
        {
            if arrays[p].inner().is_none() {
                return Ok(StackedAxisArrays::empty(axis));
            }
            p = p + 1;
        }
        let mut p: usize = 0;
        while p < np
            invariant
                np == arrays@.len(),
                p <= np,
                forall|t: int| 0 <= t < np ==> (#[trigger] arrays@[t]).slot() is Some,
                forall|t: int| 0 <= t < p ==> (#[trigger] arrays@[t]).slot()->0.kind() == axis,
            decreases np - p,
        {
            if arrays[p].inner().unwrap().axis() != axis {
                return Err(AnnError::AxisViolation);
            }
            p = p + 1;
        }
        if np == 0 {
            return Ok(StackedAxisArrays::empty(axis));
        }
        let first = arrays[0].inner().unwrap();
        let keys = first.keys();
        let ghost ks = entry_keys(first.entries());
        let mut out: Vec<(String, StackedArrayElem)> = Vec::new();
        let mut j: usize = 0;
        while j < keys.len()
            invariant
                np == arrays@.len(),
                np > 0,
                forall|p: int|
                    0 <= p < arrays@.len() ==> ((#[trigger] arrays@[p]).slot() matches Some(c) ==> c.wf()
                        && forall|i: int| 0 <= i < c.entries().len() ==> (#[trigger] c.entries()[i]).1.wf()),
                forall|t: int| 0 <= t < np ==> (#[trigger] arrays@[t]).slot() is Some,
                ks == entry_keys(arrays@[0].entries()),
                keys_unique(ks),
                strs(keys@) == ks,
                j <= keys@.len(),
                keys_unique(entry_keys(out@)),
                forall|t: int| 0 <= t < out@.len() ==> exists|u: int| 0 <= u < j && (#[trigger] out@[t]).0@ == ks[u],
                forall|t: int|
                    0 <= t < out@.len() ==> stackable(arrays@, out@[t].0@) && (forall|p: int|
                        0 <= p < arrays@.len() ==> lookup(
                            (#[trigger] arrays@[p]).entries(),
                            out@[t].0@,
                        ) is Some) && (#[trigger] out@[t]).1.wf() && out@[t].1@.0 == concat_rows(
                        stack_of(arrays@, out@[t].0@),
                        arrays@.len() as int,
                    ),
                forall|u: int|
                    0 <= u < j && stackable(arrays@, #[trigger] ks[u]) ==> entry_keys(out@).contains(ks[u]),
            decreases keys@.len() - j,
        {
            let key = &keys[j];
            let ghost kv = key@;
            assert(kv == ks[j as int]);
            let mut parts: Vec<ArrayData> = Vec::new();
            let mut ok = true;
            let mut p: usize = 0;
            while p < np
                invariant_except_break
                    ok,
                invariant
                    np == arrays@.len(),
                    forall|p: int|
                        0 <= p < arrays@.len() ==> ((#[trigger] arrays@[p]).slot() matches Some(c) ==> c.wf()
                            && forall|i: int| 0 <= i < c.entries().len() ==> (#[trigger] c.entries()[i]).1.wf()),
                    forall|t: int| 0 <= t < np ==> (#[trigger] arrays@[t]).slot() is Some,
                    p <= np,
                    kv == key@,
                    parts@.len() == p,
                    forall|t: int| 0 <= t < p ==> lookup((#[trigger] arrays@[t]).entries(), kv) is Some,
                    forall|t: int| 0 <= t < p ==> copy_of(#[trigger] parts@[t], stack_of(arrays@, kv)[t]),
                ensures
                    p <= np,
                    parts@.len() == p,
                    forall|t: int| 0 <= t < p ==> lookup((#[trigger] arrays@[t]).entries(), kv) is Some,
                    forall|t: int| 0 <= t < p ==> copy_of(#[trigger] parts@[t], stack_of(arrays@, kv)[t]),
                    ok ==> p == np,
                    !ok ==> exists|t: int| 0 <= t < np && lookup((#[trigger] arrays@[t]).entries(), kv) is None,
                decreases np - p,
            {
                let c = arrays[p].inner().unwrap();
                let kstr = key.as_str();
                assert(kstr@ == kv);
                assert(arrays@[p as int].slot() == Some(*c));
                assert(c.entries() == arrays@[p as int].entries());
                match c.get(kstr) {
                    Some(a) => {
                        proof {
                            lemma_lookup_wf(c.entries(), kv);
                            assert(lookup(arrays@[p as int].entries(), kv) is Some);
                            assert(stack_of(arrays@, kv)[p as int] == *a);
                        }
                        let ghost before = parts@;
                        parts.push(a.copy());
                        proof {
                            assert(copy_of(parts@[p as int], stack_of(arrays@, kv)[p as int]));
                            assert forall|t: int| 0 <= t < p + 1 implies copy_of(#[trigger] parts@[t], stack_of(arrays@, kv)[t]) by {
                                if t < p {
                                    assert(parts@[t] == before[t]);
                                }
                            }
                        }
                    },
                    None => {
                        proof {
                            assert(lookup(arrays@[p as int].entries(), kv) is None);
                        }
                        ok = false;
                        break;
                    },
                }
                p = p + 1;
            }
            if ok {
                proof {
                    lemma_copies_stack(parts@, stack_of(arrays@, kv));
                }
                match StackedArrayElem::new(parts) {
                    Ok(st) => {
                        let ghost before = out@;
                        out.push((key.clone(), st));
                        proof {
                            assert(!entry_keys(before).contains(kv)) by {
                                if entry_keys(before).contains(kv) {
                                    let t = choose|t: int| 0 <= t < entry_keys(before).len() && entry_keys(before)[t] == kv;
                                    let u = choose|u: int| 0 <= u < j && before[t].0@ == ks[u];
                                    assert(ks[u] != ks[j as int]);
                                }
                            }
                            assert(entry_keys(out@) =~= entry_keys(before).push(kv));
                            assert forall|a: int, b: int| 0 <= a < b < entry_keys(out@).len()
                                implies entry_keys(out@)[a] != entry_keys(out@)[b] by {
                                if b == before.len() {
                                    assert(entry_keys(out@)[a] == entry_keys(before)[a]);
                                    assert(entry_keys(before).contains(entry_keys(before)[a]));
                                }
                            }
                            assert forall|u: int| 0 <= u < j + 1 && stackable(arrays@, #[trigger] ks[u])
                                implies entry_keys(out@).contains(ks[u]) by {
                                if u < j {
                                    let t = choose|t: int| 0 <= t < entry_keys(before).len() && entry_keys(before)[t] == ks[u];
                                    assert(entry_keys(out@)[t] == ks[u]);
                                } else {
                                    assert(entry_keys(out@)[before.len() as int] == ks[u]);
                                }
                            }
                        }
                    },
                    Err(_) => {
                        proof {
                            assert(!stackable(arrays@, kv));
                            assert forall|u: int| 0 <= u < j + 1 && stackable(arrays@, #[trigger] ks[u])
                                implies entry_keys(out@).contains(ks[u]) by {
                            }
                        }
                    },
                }
            } else {
                proof {
                    assert(!stackable(arrays@, kv));
                    assert forall|u: int| 0 <= u < j + 1 && stackable(arrays@, #[trigger] ks[u])
                        implies entry_keys(out@).contains(ks[u]) by {
                    }
                }
            }
            j = j + 1;
        }
        proof {
            assert forall|k: Seq<char>|
                #![trigger stack_of(arrays@, k)]
                entry_keys(arrays@[0].entries()).contains(k) && stackable(arrays@, k)
                    implies entry_keys(out@).contains(k) by {
                let u = choose|u: int| 0 <= u < ks.len() && ks[u] == k;
                assert(stackable(arrays@, ks[u]));
            }
        }
        Ok(StackedAxisArrays { axis, data: out })
    }
}

/// The arrays named `k` in each collection, in order.
pub open spec fn stack_of(arrays: Seq<&AxisArrays>, k: Seq<char>) -> Seq<ArrayData> {
    Seq::new(arrays.len(), |p: int| lookup(arrays[p].entries(), k)->0)
}

/// Every collection holds an array named `k`, and those arrays can be
/// stacked.
pub open spec fn stackable(arrays: Seq<&AxisArrays>, k: Seq<char>) -> bool {
    &&& forall|p: int| 0 <= p < arrays.len() ==> lookup((#[trigger] arrays[p]).entries(), k) is Some
    &&& same_encoding(stack_of(arrays, k))
    &&& same_ncols(stack_of(arrays, k))
    &&& size_prefix(row_counts(stack_of(arrays, k)), arrays.len() as int) <= usize::MAX
}

/// `a` holds what `b` holds.
pub open spec fn copy_of(a: ArrayData, b: ArrayData) -> bool {
    &&& a.encoding == b.encoding
    &&& a.ncols == b.ncols
    &&& a.rows_view() == b.rows_view()
    &&& a.wf()
}

proof fn lemma_lookup_wf(entries: Seq<(String, ArrayData)>, k: Seq<char>)
    requires
        forall|i: int| 0 <= i < entries.len() ==> (#[trigger] entries[i]).1.wf(),
    ensures
        lookup(entries, k) matches Some(a) ==> a.wf(),
{
    if lookup(entries, k) is Some {
        let i = crate::collection::key_pos(entries, k);
        assert(entries[i].1.wf());
    }
}

/// Copies stack as the arrays that they copy.
pub proof fn lemma_copies_stack(parts: Seq<ArrayData>, orig: Seq<ArrayData>)
    requires
        parts.len() == orig.len(),
        forall|t: int| 0 <= t < parts.len() ==> copy_of(#[trigger] parts[t], orig[t]),
    ensures
        forall|t: int| 0 <= t < parts.len() ==> (#[trigger] parts[t]).wf(),
        same_encoding(parts) == same_encoding(orig),
        same_ncols(parts) == same_ncols(orig),
        row_counts(parts) == row_counts(orig),
        concat_rows(parts, parts.len() as int) == concat_rows(orig, orig.len() as int),
{
    assert forall|t: int| 0 <= t < parts.len() implies (#[trigger] parts[t]).rows.len() == orig[t].rows.len() by {
        assert(parts[t].rows_view().len() == orig[t].rows_view().len());
    }
    assert(row_counts(parts) =~= row_counts(orig));
    lemma_concat_rows_copies(parts, orig, parts.len() as int);
    if parts.len() > 0 {
        assert(copy_of(parts[0], orig[0]));
        if same_encoding(orig) {
            assert forall|p: int| 0 <= p < parts.len() implies #[trigger] parts[p].encoding == parts[0].encoding by {
                assert(orig[p].encoding == orig[0].encoding);
                assert(copy_of(parts[p], orig[p]));
            }
        }
        if same_encoding(parts) {
            assert forall|p: int| 0 <= p < orig.len() implies #[trigger] orig[p].encoding == orig[0].encoding by {
                assert(parts[p].encoding == parts[0].encoding);
                assert(copy_of(parts[p], orig[p]));
            }
        }
        if same_ncols(orig) {
            assert forall|p: int| 0 <= p < parts.len() implies #[trigger] parts[p].ncols == parts[0].ncols by {
                assert(orig[p].ncols == orig[0].ncols);
                assert(copy_of(parts[p], orig[p]));
            }
        }
        if same_ncols(parts) {
            assert forall|p: int| 0 <= p < orig.len() implies #[trigger] orig[p].ncols == orig[0].ncols by {
                assert(parts[p].ncols == parts[0].ncols);
                assert(copy_of(parts[p], orig[p]));
            }
        }
    }
}

proof fn lemma_concat_rows_copies(parts: Seq<ArrayData>, orig: Seq<ArrayData>, k: int)
    requires
        0 <= k <= parts.len(),
        parts.len() == orig.len(),
        forall|t: int| 0 <= t < parts.len() ==> copy_of(#[trigger] parts[t], orig[t]),
    ensures
        concat_rows(parts, k) == concat_rows(orig, k),
    decreases k,
{
    if k > 0 {
        lemma_concat_rows_copies(parts, orig, k - 1);
        assert(copy_of(parts[k - 1], orig[k - 1]));
    }
}

} // verus!
