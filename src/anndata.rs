use vstd::prelude::*;

use crate::array::{select_rows, ArrayData};
use crate::axis::{
    stack_ok, stacked_cols, stacked_rows, add_outcome, all_conform, lemma_conform_extend, lemma_conform_second_free, projected_dim, Axis,
    AxisArrays,
};
use crate::collection::{entry_keys, find_key, keys_unique, lookup, put, Data, ElemCollection};
use crate::dataframe::DataFrameIndex;
use crate::dim::{try_set_spec, Dim};
use crate::error::AnnError;
use crate::index::strs;
use crate::selection::SelectInfoElem;

verus! {

/// `e` keeps the value of `d` where `d` is set.
pub open spec fn extends(d: Option<usize>, e: Option<usize>) -> bool {
    d is Some ==> e == d
}

/// An annotated matrix: the matrix `X` of observations by variables, the
/// names of both axes, arrays aligned with the observations (`obsm`,
/// `obsp`) and with the variables (`varm`, `varp`), and unconstrained
/// values (`uns`). Two dimension cells hold the number of observations and
/// of variables.
#[derive(Debug)]
pub struct AnnData {
    n_obs: Dim,
    n_vars: Dim,
    x: Option<ArrayData>,
    obs_names: Option<DataFrameIndex>,
    var_names: Option<DataFrameIndex>,
    obs: Vec<(String, Vec<String>)>,
    var: Vec<(String, Vec<String>)>,
    uns: ElemCollection,
    obsm: AxisArrays,
    obsp: AxisArrays,
    varm: AxisArrays,
    varp: AxisArrays,
}

impl AnnData {
    pub closed spec fn obs_dim(&self) -> Option<usize> {
        self.n_obs@
    }

    pub closed spec fn var_dim(&self) -> Option<usize> {
        self.n_vars@
    }

    pub closed spec fn x_spec(&self) -> Option<ArrayData> {
        self.x
    }

    pub closed spec fn obs_names_spec(&self) -> Option<DataFrameIndex> {
        self.obs_names
    }

    pub closed spec fn var_names_spec(&self) -> Option<DataFrameIndex> {
        self.var_names
    }

    /// The columns of the observation frame.
    pub closed spec fn obs_spec(&self) -> Seq<(String, Vec<String>)> {
        self.obs@
    }

    /// The columns of the variable frame.
    pub closed spec fn var_spec(&self) -> Seq<(String, Vec<String>)> {
        self.var@
    }

    pub closed spec fn uns_spec(&self) -> ElemCollection {
        self.uns
    }

    pub closed spec fn obsm_spec(&self) -> AxisArrays {
        self.obsm
    }

    pub closed spec fn obsp_spec(&self) -> AxisArrays {
        self.obsp
    }

    pub closed spec fn varm_spec(&self) -> AxisArrays {
        self.varm
    }

    pub closed spec fn varp_spec(&self) -> AxisArrays {
        self.varp
    }

    /// Every part fits the two dimensions `no` (observations) and `nv`
    /// (variables).
    pub open spec fn fits_dims(&self, no: Option<usize>, nv: Option<usize>) -> bool {
        &&& self.x_spec() matches Some(a) ==> a.wf() && no == Some(a.rows.len()) && nv == Some(
            a.ncols,
        )
        &&& self.obs_names_spec() matches Some(ix) ==> ix@.1.wf() && no == Some(
            ix@.1.names().len() as usize,
        )
        &&& self.var_names_spec() matches Some(ix) ==> ix@.1.wf() && nv == Some(
            ix@.1.names().len() as usize,
        )
        &&& keys_unique(entry_keys(self.obs_spec()))
        &&& forall|i: int|
            0 <= i < self.obs_spec().len() ==> no == Some(
                (#[trigger] self.obs_spec()[i]).1@.len() as usize,
            )
        &&& keys_unique(entry_keys(self.var_spec()))
        &&& forall|i: int|
            0 <= i < self.var_spec().len() ==> nv == Some(
                (#[trigger] self.var_spec()[i]).1@.len() as usize,
            )
        &&& self.uns_spec().wf()
        &&& self.obsm_spec().aligned(Axis::Row, no, nv)
        &&& self.obsp_spec().aligned(Axis::Pairwise, no, nv)
        &&& self.varm_spec().aligned(Axis::Row, nv, no)
        &&& self.varp_spec().aligned(Axis::Pairwise, nv, no)
    }

    pub open spec fn wf(&self) -> bool {
        self.fits_dims(self.obs_dim(), self.var_dim())
    }

    /// An object with no data, whose dimensions are not set yet.
    pub fn empty() -> (r: Self)
        ensures
            r.wf(),
            r.obs_dim() is None,
            r.var_dim() is None,
            r.x_spec() is None,
            r.obs_names_spec() is None,
            r.var_names_spec() is None,
            r.obs_spec().len() == 0,
            r.var_spec().len() == 0,
            r.uns_spec().entries().len() == 0,
            r.obsm_spec().entries().len() == 0,
            r.obsp_spec().entries().len() == 0,
            r.varm_spec().entries().len() == 0,
            r.varp_spec().entries().len() == 0,
    {
        let r = AnnData {
            n_obs: Dim::empty(),
            n_vars: Dim::empty(),
            x: None,
            obs_names: None,
            var_names: None,
            obs: Vec::new(),
            var: Vec::new(),
            uns: ElemCollection::new(Vec::new()),
            obsm: AxisArrays::new_empty(Axis::Row),
            obsp: AxisArrays::new_empty(Axis::Pairwise),
            varm: AxisArrays::new_empty(Axis::Row),
            varp: AxisArrays::new_empty(Axis::Pairwise),
        };
        assert(r.obsm.aligned(Axis::Row, None, None));
        assert(r.obsp.aligned(Axis::Pairwise, None, None));
        r
    }

    /// An object with no data and with `n_obs` observations and `n_vars`
    /// variables.
    pub fn new(n_obs: usize, n_vars: usize) -> (r: Self)
        ensures
            r.wf(),
            r.obs_dim() == Some(n_obs),
            r.var_dim() == Some(n_vars),
            r.x_spec() is None,
            r.obs_names_spec() is None,
            r.var_names_spec() is None,
            r.obs_spec().len() == 0,
            r.var_spec().len() == 0,
            r.uns_spec().entries().len() == 0,
            r.obsm_spec().entries().len() == 0,
            r.obsp_spec().entries().len() == 0,
            r.varm_spec().entries().len() == 0,
            r.varp_spec().entries().len() == 0,
    {
        let mut r = Self::empty();
        r.n_obs = Dim::new(n_obs);
        r.n_vars = Dim::new(n_vars);
        proof {
            r.lemma_extend(None, None, Some(n_obs), Some(n_vars));
        }
        r
    }

    /// The arrays aligned with the observations.
    pub fn obsm(&self) -> (r: &AxisArrays)
        ensures
            *r == self.obsm_spec(),
    {
        &self.obsm
    }

    pub fn has_var_names(&self) -> (r: bool)
        ensures
            r == self.var_names_spec() is Some,
    {
        self.var_names.is_some()
    }

    /// The number of observations, when it is set.
    pub fn obs_dim_value(&self) -> (r: Option<usize>)
        ensures
            r == self.obs_dim(),
    {
        if self.n_obs.is_empty() {
            None
        } else {
            Some(self.n_obs.get())
        }
    }

    /// The number of variables, when it is set.
    pub fn var_dim_value(&self) -> (r: Option<usize>)
        ensures
            r == self.var_dim(),
    {
        if self.n_vars.is_empty() {
            None
        } else {
            Some(self.n_vars.get())
        }
    }

    /// Number of observations, 0 when not set.
    pub fn n_obs(&self) -> (r: usize)
        ensures
            r == crate::axis::dim_size(self.obs_dim()),
    {
        self.n_obs.get()
    }

    /// Number of variables, 0 when not set.
    pub fn n_vars(&self) -> (r: usize)
        ensures
            r == crate::axis::dim_size(self.var_dim()),
    {
        self.n_vars.get()
    }

    /// Sets the matrix. Its rows set the number of observations and its
    /// columns the number of variables; a size that differs from one already
    /// set gives `DimensionMismatch` and leaves the matrix as it was.
    pub fn set_x(&mut self, data: ArrayData) -> (r: Result<(), AnnError>)
        requires
            old(self).wf(),
            data.wf(),
        ensures
            final(self).wf(),
            (final(self).obs_dim(), final(self).var_dim(), r) == add_outcome(
                Axis::RowColumn,
                data.rows.len(),
                data.ncols,
                old(self).obs_dim(),
                old(self).var_dim(),
            ),
            r is Ok ==> final(self).x_spec() == Some(data),
            r is Err ==> final(self).x_spec() == old(self).x_spec(),
    {
        let (n, m) = data.shape();
        let ghost no = self.n_obs@;
        let ghost nv = self.n_vars@;
        let ok = match self.n_obs.try_set(n) {
            Ok(()) => self.n_vars.try_set(m),
            Err(e) => Err(e),
        };
        proof {
            self.lemma_extend(no, nv, self.n_obs@, self.n_vars@);
        }
        if ok.is_err() {
            return ok;
        }
        self.x = Some(data);
        Ok(())
    }

    /// Sets the matrix from chunks of rows, stacked in order; see `set_x`.
    /// Chunks that differ in encoding or number of columns give
    /// `EncodingMismatch` or `DimensionMismatch`, and leave the object as it
    /// was.
    pub fn set_x_from_iter(&mut self, chunks: Vec<ArrayData>) -> (r: Result<(), AnnError>)
        requires
            old(self).wf(),
            forall|p: int| 0 <= p < chunks@.len() ==> (#[trigger] chunks@[p]).wf(),
        ensures
            final(self).wf(),
            r is Ok <==> (stack_ok(chunks@) && add_outcome(
                Axis::RowColumn,
                stacked_rows(chunks@),
                stacked_cols(chunks@),
                old(self).obs_dim(),
                old(self).var_dim(),
            ).2 is Ok),
            stack_ok(chunks@) ==> (final(self).obs_dim(), final(self).var_dim()) == (
                add_outcome(
                    Axis::RowColumn,
                    stacked_rows(chunks@),
                    stacked_cols(chunks@),
                    old(self).obs_dim(),
                    old(self).var_dim(),
                ).0,
                add_outcome(
                    Axis::RowColumn,
                    stacked_rows(chunks@),
                    stacked_cols(chunks@),
                    old(self).obs_dim(),
                    old(self).var_dim(),
                ).1,
            ),
            !stack_ok(chunks@) ==> final(self).obs_dim() == old(self).obs_dim()
                && final(self).var_dim() == old(self).var_dim(),
            stack_ok(chunks@) ==> r == add_outcome(
                Axis::RowColumn,
                stacked_rows(chunks@),
                stacked_cols(chunks@),
                old(self).obs_dim(),
                old(self).var_dim(),
            ).2,
            !stack_ok(chunks@) && crate::stacked::same_encoding(chunks@) ==> r == Err::<(), AnnError>(
                AnnError::DimensionMismatch,
            ),
            !crate::stacked::same_encoding(chunks@) ==> r == Err::<(), AnnError>(
                AnnError::EncodingMismatch,
            ),
            r is Ok ==> (final(self).x_spec() matches Some(x) && x.rows_view()
                == crate::stacked::concat_rows(chunks@, chunks@.len() as int) && x.ncols
                == stacked_cols(chunks@) && x.encoding == crate::stacked::stack_encoding(chunks@)),
            r is Err ==> final(self).x_spec() == old(self).x_spec(),
    {
        let stacked = match crate::stacked::StackedArrayElem::new(chunks) {
            Ok(s) => s,
            Err(e) => {
                return Err(e);
            },
        };
        let data = stacked.data();
        proof {
            crate::stacked::lemma_stacked_rows_len(chunks@, chunks@.len() as int);
            assert(data.rows@.len() == data.rows_view().len());
        }
        self.set_x(data)
    }

    /// Removes the matrix.
    pub fn del_x(&mut self)
        requires
            old(self).wf(),
        ensures
            final(self).wf(),
            final(self).x_spec() is None,
            final(self).obs_dim() == old(self).obs_dim(),
            final(self).var_dim() == old(self).var_dim(),
    {
        self.x = None;
    }

    /// The matrix, when there is one.
    pub fn read_x(&self) -> (r: Option<&ArrayData>)
        ensures
            match r {
                Some(a) => self.x_spec() == Some(*a),
                None => self.x_spec() is None,
            },
    {
        match &self.x {
            Some(a) => Some(a),
            None => None,
        }
    }

    /// The rows picked by `sel[0]` and the columns picked by `sel[1]` of the
    /// matrix; `None` when there is no matrix. Fails with `SelectionError`
    /// when the selection is not two-dimensional or out of bounds.
    pub fn read_x_slice(&self, sel: &Vec<SelectInfoElem>) -> (r: Result<Option<ArrayData>, AnnError>)
        requires
            self.wf(),
        ensures
            self.x_spec() is None ==> r == Ok::<Option<ArrayData>, AnnError>(None),
            self.x_spec() matches Some(x) ==> {
                &&& r is Ok <==> (sel@.len() == 2 && sel@[0].valid(x.nrows()) && sel@[1].valid(
                    x.ncols as nat,
                ))
                &&& r is Err ==> r == Err::<Option<ArrayData>, AnnError>(AnnError::SelectionError)
                &&& r matches Ok(Some(a)) ==> a.rows_view() == select_rows(
                    x.rows_view(),
                    sel@[0].indices(x.nrows()),
                    sel@[1].indices(x.ncols as nat),
                )
                &&& !(r matches Ok(None))
            },
    {
        match &self.x {
            None => Ok(None),
            Some(x) => {
                if sel.len() != 2 || !sel[0].is_valid(x.rows.len()) || !sel[1].is_valid(x.ncols) {
                    return Err(AnnError::SelectionError);
                }
                Ok(Some(x.select(&sel[0], &sel[1])))
            },
        }
    }

    /// Dimensions that only get set keep every part fitting.
    proof fn lemma_extend(&self, no: Option<usize>, nv: Option<usize>, eo: Option<usize>, ev: Option<usize>)
        requires
            self.fits_dims(no, nv),
            extends(no, eo),
            extends(nv, ev),
        ensures
            self.fits_dims(eo, ev),
    {
        assert(entry_keys(Seq::<(String, Vec<String>)>::empty()) =~= Seq::empty());
        lemma_conform_extend(Axis::Row, self.obsm.entries(), no, nv, eo, ev);
        lemma_conform_extend(Axis::Pairwise, self.obsp.entries(), no, nv, eo, ev);
        lemma_conform_extend(Axis::Row, self.varm.entries(), nv, no, ev, eo);
        lemma_conform_extend(Axis::Pairwise, self.varp.entries(), nv, no, ev, eo);
    }

    /// Puts `data` under `key` among the arrays aligned with the
    /// observations; see `InnerAxisArrays::add_data`.
    pub fn add_obsm(&mut self, key: &str, data: ArrayData) -> (r: Result<(), AnnError>)
        requires
            old(self).wf(),
            data.wf(),
        ensures
            final(self).wf(),
            (final(self).obs_dim(), final(self).var_dim(), r) == add_outcome(
                Axis::Row,
                data.rows.len(),
                data.ncols,
                old(self).obs_dim(),
                old(self).var_dim(),
            ),
            r is Ok ==> lookup(final(self).obsm_spec().entries(), key@) == Some(data),
            r is Ok ==> forall|k: Seq<char>|
                k != key@ ==> lookup(final(self).obsm_spec().entries(), k) == lookup(
                    old(self).obsm_spec().entries(),
                    k,
                ),
            r is Err ==> final(self).obsm_spec().entries() == old(self).obsm_spec().entries(),
    {
        let ghost before = *self;
        let ghost no = self.n_obs@;
        let ghost nv = self.n_vars@;
        let r = self.obsm.add_data(key, data, &mut self.n_obs, &mut self.n_vars);
        proof {
            before.lemma_extend(no, nv, self.n_obs@, self.n_vars@);
        }
        r
    }

    /// Removes every array aligned with the observations of this kind.
    pub fn del_obsm(&mut self)
        requires
            old(self).wf(),
        ensures
            final(self).wf(),
            final(self).obsm_spec().entries().len() == 0,
            final(self).obs_dim() == old(self).obs_dim(),
            final(self).var_dim() == old(self).var_dim(),
    {
        self.obsm = AxisArrays::new_empty(Axis::Row);
    }

    /// The array named `key`.
    pub fn fetch_obsm(&self, key: &str) -> (r: Option<&ArrayData>)
        requires
            self.wf(),
        ensures
            match r {
                Some(a) => lookup(self.obsm_spec().entries(), key@) == Some(*a),
                None => lookup(self.obsm_spec().entries(), key@) is None,
            },
    {
        match self.obsm.inner() {
            Some(c) => c.get(key),
            None => None,
        }
    }

    pub fn obsm_keys(&self) -> (r: Vec<String>)
        ensures
            strs(r@) == entry_keys(self.obsm_spec().entries()),
    {
        self.obsm.keys()
    }

    /// Puts `data` under `key` among the arrays aligned with the
    /// observations; see `InnerAxisArrays::add_data`.
    pub fn add_obsp(&mut self, key: &str, data: ArrayData) -> (r: Result<(), AnnError>)
        requires
            old(self).wf(),
            data.wf(),
        ensures
            final(self).wf(),
            (final(self).obs_dim(), final(self).var_dim(), r) == add_outcome(
                Axis::Pairwise,
                data.rows.len(),
                data.ncols,
                old(self).obs_dim(),
                old(self).var_dim(),
            ),
            r is Ok ==> lookup(final(self).obsp_spec().entries(), key@) == Some(data),
            r is Ok ==> forall|k: Seq<char>|
                k != key@ ==> lookup(final(self).obsp_spec().entries(), k) == lookup(
                    old(self).obsp_spec().entries(),
                    k,
                ),
            r is Err ==> final(self).obsp_spec().entries() == old(self).obsp_spec().entries(),
    {
        let ghost before = *self;
        let ghost no = self.n_obs@;
        let ghost nv = self.n_vars@;
        let r = self.obsp.add_data(key, data, &mut self.n_obs, &mut self.n_vars);
        proof {
            before.lemma_extend(no, nv, self.n_obs@, self.n_vars@);
        }
        r
    }

    /// Removes every array aligned with the observations of this kind.
    pub fn del_obsp(&mut self)
        requires
            old(self).wf(),
        ensures
            final(self).wf(),
            final(self).obsp_spec().entries().len() == 0,
            final(self).obs_dim() == old(self).obs_dim(),
            final(self).var_dim() == old(self).var_dim(),
    {
        self.obsp = AxisArrays::new_empty(Axis::Pairwise);
    }

    /// The array named `key`.
    pub fn fetch_obsp(&self, key: &str) -> (r: Option<&ArrayData>)
        requires
            self.wf(),
        ensures
            match r {
                Some(a) => lookup(self.obsp_spec().entries(), key@) == Some(*a),
                None => lookup(self.obsp_spec().entries(), key@) is None,
            },
    {
        match self.obsp.inner() {
            Some(c) => c.get(key),
            None => None,
        }
    }

    pub fn obsp_keys(&self) -> (r: Vec<String>)
        ensures
            strs(r@) == entry_keys(self.obsp_spec().entries()),
    {
        self.obsp.keys()
    }

    /// Puts `data` under `key` among the arrays aligned with the
    /// variables; see `InnerAxisArrays::add_data`.
    pub fn add_varm(&mut self, key: &str, data: ArrayData) -> (r: Result<(), AnnError>)
        requires
            old(self).wf(),
            data.wf(),
        ensures
            final(self).wf(),
            (final(self).var_dim(), final(self).obs_dim(), r) == add_outcome(
                Axis::Row,
                data.rows.len(),
                data.ncols,
                old(self).var_dim(),
                old(self).obs_dim(),
            ),
            r is Ok ==> lookup(final(self).varm_spec().entries(), key@) == Some(data),
            r is Ok ==> forall|k: Seq<char>|
                k != key@ ==> lookup(final(self).varm_spec().entries(), k) == lookup(
                    old(self).varm_spec().entries(),
                    k,
                ),
            r is Err ==> final(self).varm_spec().entries() == old(self).varm_spec().entries(),
    {
        let ghost before = *self;
        let ghost no = self.n_obs@;
        let ghost nv = self.n_vars@;
        let r = self.varm.add_data(key, data, &mut self.n_vars, &mut self.n_obs);
        proof {
            before.lemma_extend(no, nv, self.n_obs@, self.n_vars@);
        }
        r
    }

    /// Removes every array aligned with the variables of this kind.
    pub fn del_varm(&mut self)
        requires
            old(self).wf(),
        ensures
            final(self).wf(),
            final(self).varm_spec().entries().len() == 0,
            final(self).obs_dim() == old(self).obs_dim(),
            final(self).var_dim() == old(self).var_dim(),
    {
        self.varm = AxisArrays::new_empty(Axis::Row);
    }

    /// The array named `key`.
    pub fn fetch_varm(&self, key: &str) -> (r: Option<&ArrayData>)
        requires
            self.wf(),
        ensures
            match r {
                Some(a) => lookup(self.varm_spec().entries(), key@) == Some(*a),
                None => lookup(self.varm_spec().entries(), key@) is None,
            },
    {
        match self.varm.inner() {
            Some(c) => c.get(key),
            None => None,
        }
    }

    pub fn varm_keys(&self) -> (r: Vec<String>)
        ensures
            strs(r@) == entry_keys(self.varm_spec().entries()),
    {
        self.varm.keys()
    }

    /// Puts `data` under `key` among the arrays aligned with the
    /// variables; see `InnerAxisArrays::add_data`.
    pub fn add_varp(&mut self, key: &str, data: ArrayData) -> (r: Result<(), AnnError>)
        requires
            old(self).wf(),
            data.wf(),
        ensures
            final(self).wf(),
            (final(self).var_dim(), final(self).obs_dim(), r) == add_outcome(
                Axis::Pairwise,
                data.rows.len(),
                data.ncols,
                old(self).var_dim(),
                old(self).obs_dim(),
            ),
            r is Ok ==> lookup(final(self).varp_spec().entries(), key@) == Some(data),
            r is Ok ==> forall|k: Seq<char>|
                k != key@ ==> lookup(final(self).varp_spec().entries(), k) == lookup(
                    old(self).varp_spec().entries(),
                    k,
                ),
            r is Err ==> final(self).varp_spec().entries() == old(self).varp_spec().entries(),
    {
        let ghost before = *self;
        let ghost no = self.n_obs@;
        let ghost nv = self.n_vars@;
        let r = self.varp.add_data(key, data, &mut self.n_vars, &mut self.n_obs);
        proof {
            before.lemma_extend(no, nv, self.n_obs@, self.n_vars@);
        }
        r
    }

    /// Removes every array aligned with the variables of this kind.
    pub fn del_varp(&mut self)
        requires
            old(self).wf(),
        ensures
            final(self).wf(),
            final(self).varp_spec().entries().len() == 0,
            final(self).obs_dim() == old(self).obs_dim(),
            final(self).var_dim() == old(self).var_dim(),
    {
        self.varp = AxisArrays::new_empty(Axis::Pairwise);
    }

    /// The array named `key`.
    pub fn fetch_varp(&self, key: &str) -> (r: Option<&ArrayData>)
        requires
            self.wf(),
        ensures
            match r {
                Some(a) => lookup(self.varp_spec().entries(), key@) == Some(*a),
                None => lookup(self.varp_spec().entries(), key@) is None,
            },
    {
        match self.varp.inner() {
            Some(c) => c.get(key),
            None => None,
        }
    }

    pub fn varp_keys(&self) -> (r: Vec<String>)
        ensures
            strs(r@) == entry_keys(self.varp_spec().entries()),
    {
        self.varp.keys()
    }

    /// Puts a column of the observation frame under `name`. Its length sets
    /// the number of observations; a length that differs from one already
    /// set gives `DimensionMismatch` and leaves the frame as it was.
    pub fn set_obs_column(&mut self, name: &str, values: Vec<String>) -> (r: Result<(), AnnError>)
        requires
            old(self).wf(),
        ensures
            final(self).var_spec() == old(self).var_spec(),
            final(self).uns_spec() == old(self).uns_spec(),
            final(self).obs_names_spec() == old(self).obs_names_spec(),
            final(self).var_names_spec() == old(self).var_names_spec(),
            final(self).x_spec() == old(self).x_spec(),
            final(self).obsm_spec() == old(self).obsm_spec(),
            final(self).obsp_spec() == old(self).obsp_spec(),
            final(self).varm_spec() == old(self).varm_spec(),
            final(self).varp_spec() == old(self).varp_spec(),
            final(self).wf(),
            final(self).var_dim() == old(self).var_dim(),
            (final(self).obs_dim(), r is Ok) == try_set_spec(old(self).obs_dim(), values@.len() as usize),
            r is Ok ==> lookup(final(self).obs_spec(), name@) == Some(values),
            r is Ok ==> forall|k: Seq<char>|
                k != name@ ==> lookup(final(self).obs_spec(), k) == lookup(old(self).obs_spec(), k),
            r is Err ==> r == Err::<(), AnnError>(AnnError::DimensionMismatch) && final(self).obs_spec()
                == old(self).obs_spec(),
    {
        let n = values.len();
        let ghost before = *self;
        let ghost no = self.n_obs@;
        let ghost nv = self.n_vars@;
        let ok = self.n_obs.try_set(n);
        proof {
            before.lemma_extend(no, nv, self.n_obs@, self.n_vars@);
        }
        if ok.is_err() {
            return ok;
        }
        let ghost prev = self.obs@;
        put(&mut self.obs, name.to_owned(), values);
        proof {
            crate::collection::lemma_put_values(prev, self.obs@, name@, values);
            assert forall|i: int| 0 <= i < self.obs@.len() implies self.n_obs@ == Some(
                (#[trigger] self.obs@[i]).1@.len() as usize,
            ) by {
                if self.obs@[i].1 != values {
                    let j = choose|j: int| 0 <= j < prev.len() && prev[j].1 == self.obs@[i].1;
                    assert(before.obs_spec()[j] == prev[j]);
                }
            }
        }
        Ok(())
    }

    /// The column of the observation frame named `name`.
    pub fn obs_column(&self, name: &str) -> (r: Option<&Vec<String>>)
        requires
            self.wf(),
        ensures
            match r {
                Some(v) => lookup(self.obs_spec(), name@) == Some(*v),
                None => lookup(self.obs_spec(), name@) is None,
            },
    {
        let k = name.to_owned();
        match find_key(&self.obs, &k) {
            Some(i) => {
                proof {
                    crate::collection::lemma_entry_lookup(self.obs@, i as int);
                }
                Some(&self.obs[i].1)
            },
            None => None,
        }
    }

    /// The names of the columns of the observation frame.
    pub fn obs_keys(&self) -> (r: Vec<String>)
        ensures
            strs(r@) == entry_keys(self.obs_spec()),
    {
        crate::collection::key_list(&self.obs)
    }

    /// Removes every column of the observation frame.
    pub fn del_obs(&mut self)
        requires
            old(self).wf(),
        ensures
            final(self).wf(),
            final(self).obs_spec().len() == 0,
            final(self).obs_dim() == old(self).obs_dim(),
            final(self).var_dim() == old(self).var_dim(),
    {
        self.obs = Vec::new();
        assert(entry_keys(self.obs@) =~= Seq::empty());
    }

    /// Puts a column of the variable frame under `name`. Its length sets
    /// the number of observations; a length that differs from one already
    /// set gives `DimensionMismatch` and leaves the frame as it was.
    pub fn set_var_column(&mut self, name: &str, values: Vec<String>) -> (r: Result<(), AnnError>)
        requires
            old(self).wf(),
        ensures
            final(self).obs_spec() == old(self).obs_spec(),
            final(self).uns_spec() == old(self).uns_spec(),
            final(self).obs_names_spec() == old(self).obs_names_spec(),
            final(self).var_names_spec() == old(self).var_names_spec(),
            final(self).x_spec() == old(self).x_spec(),
            final(self).obsm_spec() == old(self).obsm_spec(),
            final(self).obsp_spec() == old(self).obsp_spec(),
            final(self).varm_spec() == old(self).varm_spec(),
            final(self).varp_spec() == old(self).varp_spec(),
            final(self).wf(),
            final(self).obs_dim() == old(self).obs_dim(),
            (final(self).var_dim(), r is Ok) == try_set_spec(old(self).var_dim(), values@.len() as usize),
            r is Ok ==> lookup(final(self).var_spec(), name@) == Some(values),
            r is Ok ==> forall|k: Seq<char>|
                k != name@ ==> lookup(final(self).var_spec(), k) == lookup(old(self).var_spec(), k),
            r is Err ==> r == Err::<(), AnnError>(AnnError::DimensionMismatch) && final(self).var_spec()
                == old(self).var_spec(),
    {
        let n = values.len();
        let ghost before = *self;
        let ghost no = self.n_obs@;
        let ghost nv = self.n_vars@;
        let ok = self.n_vars.try_set(n);
        proof {
            before.lemma_extend(no, nv, self.n_obs@, self.n_vars@);
        }
        if ok.is_err() {
            return ok;
        }
        let ghost prev = self.var@;
        put(&mut self.var, name.to_owned(), values);
        proof {
            crate::collection::lemma_put_values(prev, self.var@, name@, values);
            assert forall|i: int| 0 <= i < self.var@.len() implies self.n_vars@ == Some(
                (#[trigger] self.var@[i]).1@.len() as usize,
            ) by {
                if self.var@[i].1 != values {
                    let j = choose|j: int| 0 <= j < prev.len() && prev[j].1 == self.var@[i].1;
                    assert(before.var_spec()[j] == prev[j]);
                }
            }
        }
        Ok(())
    }

    /// The column of the variable frame named `name`.
    pub fn var_column(&self, name: &str) -> (r: Option<&Vec<String>>)
        requires
            self.wf(),
        ensures
            match r {
                Some(v) => lookup(self.var_spec(), name@) == Some(*v),
                None => lookup(self.var_spec(), name@) is None,
            },
    {
        let k = name.to_owned();
        match find_key(&self.var, &k) {
            Some(i) => {
                proof {
                    crate::collection::lemma_entry_lookup(self.var@, i as int);
                }
                Some(&self.var[i].1)
            },
            None => None,
        }
    }

    /// The names of the columns of the variable frame.
    pub fn var_keys(&self) -> (r: Vec<String>)
        ensures
            strs(r@) == entry_keys(self.var_spec()),
    {
        crate::collection::key_list(&self.var)
    }

    /// Removes every column of the variable frame.
    pub fn del_var(&mut self)
        requires
            old(self).wf(),
        ensures
            final(self).wf(),
            final(self).var_spec().len() == 0,
            final(self).obs_dim() == old(self).obs_dim(),
            final(self).var_dim() == old(self).var_dim(),
    {
        self.var = Vec::new();
        assert(entry_keys(self.var@) =~= Seq::empty());
    }

    /// Puts `data` under `key` among the unconstrained values.
    pub fn add_uns(&mut self, key: &str, data: Data)
        requires
            old(self).wf(),
        ensures
            final(self).var_spec() == old(self).var_spec(),
            final(self).obs_spec() == old(self).obs_spec(),
            final(self).obs_names_spec() == old(self).obs_names_spec(),
            final(self).var_names_spec() == old(self).var_names_spec(),
            final(self).x_spec() == old(self).x_spec(),
            final(self).obsm_spec() == old(self).obsm_spec(),
            final(self).obsp_spec() == old(self).obsp_spec(),
            final(self).varm_spec() == old(self).varm_spec(),
            final(self).varp_spec() == old(self).varp_spec(),
            final(self).wf(),
            final(self).obs_dim() == old(self).obs_dim(),
            final(self).var_dim() == old(self).var_dim(),
            lookup(final(self).uns_spec().entries(), key@) == Some(data),
            forall|k: Seq<char>|
                k != key@ ==> lookup(final(self).uns_spec().entries(), k) == lookup(
                    old(self).uns_spec().entries(),
                    k,
                ),
    {
        self.uns.add(key, data);
    }

    /// The unconstrained value named `key`.
    pub fn fetch_uns(&self, key: &str) -> (r: Option<&Data>)
        requires
            self.wf(),
        ensures
            match r {
                Some(d) => lookup(self.uns_spec().entries(), key@) == Some(*d),
                None => lookup(self.uns_spec().entries(), key@) is None,
            },
    {
        self.uns.get_item(key)
    }

    /// Removes every unconstrained value.
    pub fn del_uns(&mut self)
        requires
            old(self).wf(),
        ensures
            final(self).wf(),
            final(self).uns_spec().entries().len() == 0,
            final(self).obs_dim() == old(self).obs_dim(),
            final(self).var_dim() == old(self).var_dim(),
    {
        self.uns = ElemCollection::new(Vec::new());
    }

    pub fn uns_keys(&self) -> (r: Vec<String>)
        ensures
            strs(r@) == entry_keys(self.uns_spec().entries()),
    {
        self.uns.keys()
    }

    /// Names the observations. Their number sets the number of
    /// observations; a number that differs from one already set gives
    /// `DimensionMismatch` and leaves the names as they were.
    pub fn set_obs_names(&mut self, index: DataFrameIndex) -> (r: Result<(), AnnError>)
        requires
            old(self).wf(),
            index@.1.wf(),
        ensures
            final(self).var_spec() == old(self).var_spec(),
            final(self).uns_spec() == old(self).uns_spec(),
            final(self).obs_spec() == old(self).obs_spec(),
            final(self).var_names_spec() == old(self).var_names_spec(),
            final(self).x_spec() == old(self).x_spec(),
            final(self).obsm_spec() == old(self).obsm_spec(),
            final(self).obsp_spec() == old(self).obsp_spec(),
            final(self).varm_spec() == old(self).varm_spec(),
            final(self).varp_spec() == old(self).varp_spec(),
            final(self).wf(),
            final(self).var_dim() == old(self).var_dim(),
            (final(self).obs_dim(), r is Ok) == try_set_spec(
                old(self).obs_dim(),
                index@.1.names().len() as usize,
            ),
            r is Err ==> r == Err::<(), AnnError>(AnnError::DimensionMismatch)
                && final(self).obs_names_spec() == old(self).obs_names_spec(),
            r is Ok ==> final(self).obs_names_spec() == Some(index),
    {
        let n = index.len();
        let ghost before = *self;
        let ghost no = self.n_obs@;
        let ghost nv = self.n_vars@;
        let ok = self.n_obs.try_set(n);
        proof {
            before.lemma_extend(no, nv, self.n_obs@, self.n_vars@);
        }
        if ok.is_err() {
            return ok;
        }
        self.obs_names = Some(index);
        Ok(())
    }

    /// Names the variables, as `set_obs_names` names the observations.
    pub fn set_var_names(&mut self, index: DataFrameIndex) -> (r: Result<(), AnnError>)
        requires
            old(self).wf(),
            index@.1.wf(),
        ensures
            final(self).var_spec() == old(self).var_spec(),
            final(self).uns_spec() == old(self).uns_spec(),
            final(self).obs_spec() == old(self).obs_spec(),
            final(self).obs_names_spec() == old(self).obs_names_spec(),
            final(self).x_spec() == old(self).x_spec(),
            final(self).obsm_spec() == old(self).obsm_spec(),
            final(self).obsp_spec() == old(self).obsp_spec(),
            final(self).varm_spec() == old(self).varm_spec(),
            final(self).varp_spec() == old(self).varp_spec(),
            final(self).wf(),
            final(self).obs_dim() == old(self).obs_dim(),
            (final(self).var_dim(), r is Ok) == try_set_spec(
                old(self).var_dim(),
                index@.1.names().len() as usize,
            ),
            r is Err ==> r == Err::<(), AnnError>(AnnError::DimensionMismatch)
                && final(self).var_names_spec() == old(self).var_names_spec(),
            r is Ok ==> final(self).var_names_spec() == Some(index),
    {
        let n = index.len();
        let ghost before = *self;
        let ghost no = self.n_obs@;
        let ghost nv = self.n_vars@;
        let ok = self.n_vars.try_set(n);
        proof {
            before.lemma_extend(no, nv, self.n_obs@, self.n_vars@);
        }
        if ok.is_err() {
            return ok;
        }
        self.var_names = Some(index);
        Ok(())
    }

    /// The names of the observations; none when they are not named.
    pub fn obs_names(&self) -> (r: Vec<String>)
        requires
            self.wf(),
        ensures
            strs(r@) == names_of(self.obs_names_spec()),
    {
        names_vec(&self.obs_names)
    }

    /// The names of the variables; none when they are not named.
    pub fn var_names(&self) -> (r: Vec<String>)
        requires
            self.wf(),
        ensures
            strs(r@) == names_of(self.var_names_spec()),
    {
        names_vec(&self.var_names)
    }

    /// The positions of the observations with the given names. A name that
    /// no observation has gives `MissingKey`.
    pub fn obs_ix(&self, names: &Vec<String>) -> (r: Result<Vec<usize>, AnnError>)
        requires
            self.wf(),
        ensures
            positions_ok(names_of(self.obs_names_spec()), strs(names@), r),
    {
        positions(&self.obs_names, names)
    }

    /// The positions of the variables with the given names, as `obs_ix`.
    pub fn var_ix(&self, names: &Vec<String>) -> (r: Result<Vec<usize>, AnnError>)
        requires
            self.wf(),
        ensures
            positions_ok(names_of(self.var_names_spec()), strs(names@), r),
    {
        positions(&self.var_names, names)
    }
}

/// The names that an optional index holds.
pub open spec fn names_of(ix: Option<DataFrameIndex>) -> Seq<Seq<char>> {
    match ix {
        Some(i) => i@.1.names(),
        None => Seq::empty(),
    }
}

/// `r` gives, for each wanted name, the first position that holds it, or
/// `MissingKey` when some wanted name is held nowhere.
pub open spec fn positions_ok(
    names: Seq<Seq<char>>,
    wanted: Seq<Seq<char>>,
    r: Result<Vec<usize>, AnnError>,
) -> bool {
    match r {
        Ok(v) => v@.len() == wanted.len() && forall|i: int|
            0 <= i < wanted.len() ==> {
                &&& v@[i] < names.len()
                &&& names[v@[i] as int] == wanted[i]
                &&& forall|j: int| 0 <= j < v@[i] ==> names[j] != wanted[i]
            },
        Err(e) => e == AnnError::MissingKey && exists|i: int|
            0 <= i < wanted.len() && forall|j: int| 0 <= j < names.len() ==> names[j] != #[trigger] wanted[i],
    }
}

fn names_vec(ix: &Option<DataFrameIndex>) -> (r: Vec<String>)
    requires
        ix matches Some(i) ==> i@.1.wf(),
    ensures
        strs(r@) == names_of(*ix),
{
    match ix {
        Some(i) => i.to_vec(),
        None => {
            let r: Vec<String> = Vec::new();
            assert(strs(r@) =~= Seq::<Seq<char>>::empty());
            r
        },
    }
}

fn positions(ix: &Option<DataFrameIndex>, wanted: &Vec<String>) -> (r: Result<Vec<usize>, AnnError>)
    requires
        ix matches Some(i) ==> i@.1.wf(),
    ensures
        positions_ok(names_of(*ix), strs(wanted@), r),
{
    let ghost names = names_of(*ix);
    let mut out: Vec<usize> = Vec::new();
    let mut i: usize = 0;
    while i < wanted.len()
        invariant
            names == names_of(*ix),
            ix matches Some(x) ==> x@.1.wf(),
            i <= wanted@.len(),
            out@.len() == i,
            forall|t: int|
                0 <= t < i ==> {
                    &&& out@[t] < names.len()
                    &&& names[out@[t] as int] == wanted@[t]@
                    &&& forall|j: int| 0 <= j < out@[t] ==> names[j] != wanted@[t]@
                },
        decreases wanted@.len() - i,
    {
        let found = match ix {
            Some(x) => x.get_index(wanted[i].as_str()),
            None => None,
        };
        match found {
            Some(p) => {
                out.push(p);
            },
            None => {
                proof {
                    assert(strs(wanted@)[i as int] == wanted@[i as int]@);
                }
                return Err(AnnError::MissingKey);
            },
        }
        i = i + 1;
    }
    Ok(out)
}

/// Every part of a well-formed object is aligned with its axes: arrays
/// aligned with the observations have one row per observation, those
/// aligned with the variables one row per variable, pairwise arrays are
/// square, and the matrix has one row per observation and one column per
/// variable.
pub proof fn lemma_alignment(a: &AnnData)
    requires
        a.wf(),
    ensures
        a.x_spec() matches Some(x) ==> a.obs_dim() == Some(x.rows.len()) && a.var_dim() == Some(
            x.ncols,
        ),
        forall|i: int|
            0 <= i < a.obsm_spec().entries().len() ==> a.obs_dim() == Some(
                (#[trigger] a.obsm_spec().entries()[i]).1.rows.len(),
            ),
        forall|i: int|
            0 <= i < a.obsp_spec().entries().len() ==> {
                let v = (#[trigger] a.obsp_spec().entries()[i]).1;
                v.rows.len() == v.ncols && a.obs_dim() == Some(v.rows.len())
            },
        forall|i: int|
            0 <= i < a.varm_spec().entries().len() ==> a.var_dim() == Some(
                (#[trigger] a.varm_spec().entries()[i]).1.rows.len(),
            ),
        forall|i: int|
            0 <= i < a.varp_spec().entries().len() ==> {
                let v = (#[trigger] a.varp_spec().entries()[i]).1;
                v.rows.len() == v.ncols && a.var_dim() == Some(v.rows.len())
            },
        a.obs_names_spec() matches Some(ix) ==> a.obs_dim() == Some(ix@.1.names().len() as usize),
        a.var_names_spec() matches Some(ix) ==> a.var_dim() == Some(ix@.1.names().len() as usize),
{
    assert forall|i: int| 0 <= i < a.obsm_spec().entries().len() implies a.obs_dim() == Some(
        (#[trigger] a.obsm_spec().entries()[i]).1.rows.len(),
    ) by {
        assert(crate::axis::conforms(Axis::Row, a.obsm_spec().entries()[i].1, a.obs_dim(), a.var_dim()));
    }
    assert forall|i: int| 0 <= i < a.obsp_spec().entries().len() implies {
        let v = (#[trigger] a.obsp_spec().entries()[i]).1;
        v.rows.len() == v.ncols && a.obs_dim() == Some(v.rows.len())
    } by {
        assert(crate::axis::conforms(Axis::Pairwise, a.obsp_spec().entries()[i].1, a.obs_dim(), a.var_dim()));
    }
    assert forall|i: int| 0 <= i < a.varm_spec().entries().len() implies a.var_dim() == Some(
        (#[trigger] a.varm_spec().entries()[i]).1.rows.len(),
    ) by {
        assert(crate::axis::conforms(Axis::Row, a.varm_spec().entries()[i].1, a.var_dim(), a.obs_dim()));
    }
    assert forall|i: int| 0 <= i < a.varp_spec().entries().len() implies {
        let v = (#[trigger] a.varp_spec().entries()[i]).1;
        v.rows.len() == v.ncols && a.var_dim() == Some(v.rows.len())
    } by {
        assert(crate::axis::conforms(Axis::Pairwise, a.varp_spec().entries()[i].1, a.var_dim(), a.obs_dim()));
    }
}

impl AnnData {
    /// The object restricted to the observations picked by `sel[0]` and the
    /// variables picked by `sel[1]`: the matrix, the names, the columns of
    /// the observation frame and the aligned arrays are restricted alike,
    /// and the unconstrained values are copied. Fails with
    /// `SelectionError` when the selection is not two-dimensional or out of
    /// bounds.
    pub fn write_select(&self, sel: &Vec<SelectInfoElem>) -> (r: Result<AnnData, AnnError>)
        requires
            self.wf(),
        ensures
            r is Ok <==> (sel@.len() == 2 && sel@[0].valid(crate::axis::dim_size(self.obs_dim()))
                && sel@[1].valid(crate::axis::dim_size(self.var_dim()))),
            r is Err ==> r == Err::<AnnData, AnnError>(AnnError::SelectionError),
            r matches Ok(b) ==> {
                let rows = sel@[0].indices(crate::axis::dim_size(self.obs_dim()));
                let cols = sel@[1].indices(crate::axis::dim_size(self.var_dim()));
                &&& b.wf()
                &&& b.obs_dim() == Some(rows.len() as usize)
                &&& b.var_dim() == Some(cols.len() as usize)
                &&& match self.x_spec() {
                    Some(x) => b.x_spec() matches Some(y) && y.rows_view() == select_rows(
                        x.rows_view(),
                        rows,
                        cols,
                    ),
                    None => b.x_spec() is None,
                }
                &&& (b.obs_names_spec() is Some) == (self.obs_names_spec() is Some)
                &&& self.obs_names_spec() is Some ==> names_of(b.obs_names_spec())
                    == crate::index::pick_names(names_of(self.obs_names_spec()), rows)
                &&& (b.var_names_spec() is Some) == (self.var_names_spec() is Some)
                &&& self.var_names_spec() is Some ==> names_of(b.var_names_spec())
                    == crate::index::pick_names(names_of(self.var_names_spec()), cols)
                &&& entry_keys(b.obs_spec()) == entry_keys(self.obs_spec())
                &&& forall|i: int|
                    0 <= i < b.obs_spec().len() ==> strs((#[trigger] b.obs_spec()[i]).1@)
                        == crate::index::pick_names(strs(self.obs_spec()[i].1@), rows)
                &&& entry_keys(b.var_spec()) == entry_keys(self.var_spec())
                &&& forall|i: int|
                    0 <= i < b.var_spec().len() ==> strs((#[trigger] b.var_spec()[i]).1@)
                        == crate::index::pick_names(strs(self.var_spec()[i].1@), cols)
                &&& entry_keys(b.uns_spec().entries()) == entry_keys(self.uns_spec().entries())
                &&& entry_keys(b.obsm_spec().entries()) == entry_keys(self.obsm_spec().entries())
                &&& entry_keys(b.obsp_spec().entries()) == entry_keys(self.obsp_spec().entries())
                &&& entry_keys(b.varm_spec().entries()) == entry_keys(self.varm_spec().entries())
                &&& entry_keys(b.varp_spec().entries()) == entry_keys(self.varp_spec().entries())
            },
    {
        let no = self.n_obs.get();
        let nv = self.n_vars.get();
        if sel.len() != 2 || !sel[0].is_valid(no) || !sel[1].is_valid(nv) {
            return Err(AnnError::SelectionError);
        }
        let ghost rows = sel@[0].indices(no as nat);
        let ghost cols = sel@[1].indices(nv as nat);
        let nr = sel[0].len(no);
        let nc = sel[1].len(nv);
        let x = match &self.x {
            Some(a) => {
                let y = a.select(&sel[0], &sel[1]);
                proof {
                    assert(y.rows@.len() == y.rows_view().len());
                }
                Some(y)
            },
            None => None,
        };
        let obs_names = match &self.obs_names {
            Some(ix) => {
                proof {
                    ix.lemma_len_bounded();
                    assert(ix@.1.names().len() == no);
                }
                Some(ix.select(&sel[0]))
            },
            None => None,
        };
        let var_names = match &self.var_names {
            Some(ix) => {
                proof {
                    ix.lemma_len_bounded();
                    assert(ix@.1.names().len() == nv);
                }
                Some(ix.select(&sel[1]))
            },
            None => None,
        };
        let idx = sel[0].to_vec(no);
        let mut obs: Vec<(String, Vec<String>)> = Vec::new();
        let mut i: usize = 0;
        while i < self.obs.len()
            invariant
                self.wf(),
                no == crate::axis::dim_size(self.obs_dim()),
                idx@.len() == rows.len(),
                rows == sel@[0].indices(no as nat),
                forall|t: int| 0 <= t < idx@.len() ==> idx@[t] as int == rows[t],
                forall|t: int| 0 <= t < idx@.len() ==> idx@[t] < no,
                i <= self.obs@.len(),
                obs@.len() == i,
                forall|t: int| 0 <= t < i ==> (#[trigger] obs@[t]).0@ == self.obs@[t].0@,
                forall|t: int|
                    0 <= t < i ==> strs((#[trigger] obs@[t]).1@) == crate::index::pick_names(
                        strs(self.obs@[t].1@),
                        rows,
                    ),
            decreases self.obs@.len() - i,
        {
            assert(self.n_obs@ == Some(self.obs@[i as int].1@.len() as usize));
            let col = pick_strings(&self.obs[i].1, &idx);
            proof {
                assert(strs(col@) =~= crate::index::pick_names(strs(self.obs@[i as int].1@), rows));
            }
            obs.push((self.obs[i].0.clone(), col));
            i = i + 1;
        }
        let vidx = sel[1].to_vec(nv);
        let mut var: Vec<(String, Vec<String>)> = Vec::new();
        let mut i: usize = 0;
        while i < self.var.len()
            invariant
                self.wf(),
                nv == crate::axis::dim_size(self.var_dim()),
                vidx@.len() == cols.len(),
                cols == sel@[1].indices(nv as nat),
                forall|t: int| 0 <= t < vidx@.len() ==> vidx@[t] as int == cols[t],
                forall|t: int| 0 <= t < vidx@.len() ==> vidx@[t] < nv,
                i <= self.var@.len(),
                var@.len() == i,
                forall|t: int| 0 <= t < i ==> (#[trigger] var@[t]).0@ == self.var@[t].0@,
                forall|t: int|
                    0 <= t < i ==> strs((#[trigger] var@[t]).1@) == crate::index::pick_names(
                        strs(self.var@[t].1@),
                        cols,
                    ),
            decreases self.var@.len() - i,
        {
            assert(self.n_vars@ == Some(self.var@[i as int].1@.len() as usize));
            let col = pick_strings(&self.var[i].1, &vidx);
            proof {
                assert(strs(col@) =~= crate::index::pick_names(strs(self.var@[i as int].1@), cols));
            }
            var.push((self.var[i].0.clone(), col));
            i = i + 1;
        }
        let row_sel = vec![sel[0].clone_sel()];
        let col_sel = vec![sel[1].clone_sel()];
        proof {
            assert(row_sel@[0].indices(no as nat) == sel@[0].indices(no as nat));
            assert(col_sel@[0].indices(nv as nat) == sel@[1].indices(nv as nat));
            assert(row_sel@[0].valid(no as nat));
            assert(col_sel@[0].valid(nv as nat));
        }
        let (no_dim, nv_dim) = (&self.n_obs, &self.n_vars);
        let obsm = self.obsm.inner().unwrap().export_select(&row_sel, no_dim, nv_dim).unwrap();
        let obsp = self.obsp.inner().unwrap().export_select(&row_sel, no_dim, nv_dim).unwrap();
        let varm = self.varm.inner().unwrap().export_select(&col_sel, nv_dim, no_dim).unwrap();
        let varp = self.varp.inner().unwrap().export_select(&col_sel, nv_dim, no_dim).unwrap();
        let (obsm, obsp) = (AxisArrays::from_inner(obsm), AxisArrays::from_inner(obsp));
        let (varm, varp) = (AxisArrays::from_inner(varm), AxisArrays::from_inner(varp));
        let b = AnnData {
            n_obs: Dim::new(nr),
            n_vars: Dim::new(nc),
            x,
            obs_names,
            var_names,
            obs,
            var,
            uns: self.uns.export(),
            obsm,
            obsp,
            varm,
            varp,
        };
        proof {
            assert(entry_keys(b.obs@) =~= entry_keys(self.obs@));
            assert(entry_keys(b.var@) =~= entry_keys(self.var@));
            assert forall|t: int| 0 <= t < b.var@.len() implies b.n_vars@ == Some(
                (#[trigger] b.var@[t]).1@.len() as usize,
            ) by {
                assert(strs(b.var@[t].1@).len() == b.var@[t].1@.len());
            }
            assert forall|t: int| 0 <= t < b.obs@.len() implies b.n_obs@ == Some(
                (#[trigger] b.obs@[t]).1@.len() as usize,
            ) by {
                assert(strs(b.obs@[t].1@).len() == b.obs@[t].1@.len());
            }
            let obs_second = Some(projected_dim(Axis::Row, row_sel@, 1, nv as nat));
            let var_second = Some(projected_dim(Axis::Row, col_sel@, 1, no as nat));
            lemma_conform_second_free(Axis::Row, b.obsm.entries(), b.n_obs@, obs_second, b.n_vars@);
            lemma_conform_second_free(Axis::Pairwise, b.obsp.entries(), b.n_obs@, obs_second, b.n_vars@);
            lemma_conform_second_free(Axis::Row, b.varm.entries(), b.n_vars@, var_second, b.n_obs@);
            lemma_conform_second_free(Axis::Pairwise, b.varp.entries(), b.n_vars@, var_second, b.n_obs@);
        }
        Ok(b)
    }
}

/// The strings at the positions `idx`, in order.
fn pick_strings(v: &Vec<String>, idx: &Vec<usize>) -> (r: Vec<String>)
    requires
        forall|t: int| 0 <= t < idx@.len() ==> idx@[t] < v@.len(),
    ensures
        r@.len() == idx@.len(),
        forall|t: int| 0 <= t < idx@.len() ==> (#[trigger] r@[t])@ == v@[idx@[t] as int]@,
{
    let mut out: Vec<String> = Vec::new();
    let mut i: usize = 0;
    while i < idx.len()
        invariant
            forall|t: int| 0 <= t < idx@.len() ==> idx@[t] < v@.len(),
            i <= idx@.len(),
            out@.len() == i,
            forall|t: int| 0 <= t < i ==> (#[trigger] out@[t])@ == v@[idx@[t] as int]@,
        decreases idx@.len() - i,
    {
        out.push(v[idx[i]].clone());
        i = i + 1;
    }
    out
}

} // verus!
