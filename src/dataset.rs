use vstd::prelude::*;
use vstd::string::StringExecFns;

use crate::anndata::{names_of, AnnData};
use crate::array::{select_rows, ArrayData};
use crate::axis::{add_outcome, dim_size, Axis, AxisArrays, StackedAxisArrays};
use crate::collection::{entry_keys, find_key, keys_distinct, key_list, keys_unique, lookup, table_view, Data};
use crate::dataframe::DataFrameIndex;
use crate::frame::{column_of, lemma_column_of_first};
use crate::index::{copy_strings, range_names};
use crate::text::{key_line, push_key_line, quote_strings, quoted};
use crate::anndata::positions_ok;
use crate::dim::try_set_spec;
use crate::error::AnnError;
use crate::index::strs;
use crate::selection::SelectInfoElem;
use crate::stacked::{concat_rows, row_counts, same_encoding, same_ncols, StackedArrayElem};
use indexmap::IndexMap;

use crate::vecvec::{
    part_filter, part_globals,
    concat_globals, offsets_wf, part_size, reorders, reverse_mapping, size_prefix, split_concat,
    split_ok, VecVecIndex,
};

verus! {

/// The ordered map of `indexmap`, which holds the children of a stack under
/// their keys in the order in which they were given.
#[verifier::external_type_specification]
#[verifier::external_body]
#[verifier::reject_recursive_types(K)]
#[verifier::reject_recursive_types(V)]
#[verifier::reject_recursive_types(S)]
pub struct ExIndexMap<K, V, S>(IndexMap<K, V, S>);

/// The entries of an ordered map of children, in the map's order.
pub uninterp spec fn stack_entries(m: IndexMap<String, AnnData>) -> Seq<(Seq<char>, AnnData)>;

/// Relies on `IndexMap::new`: a new map holds no entry.
#[verifier::external_body]
fn stack_new() -> (r: IndexMap<String, AnnData>)
    ensures
        stack_entries(r) == Seq::<(Seq<char>, AnnData)>::empty(),
{
    IndexMap::new()
}

/// Relies on `IndexMap::insert`: a key already in the map keeps its place
/// and gets the new value; a new key goes last.
#[verifier::external_body]
fn stack_insert(m: &mut IndexMap<String, AnnData>, key: String, value: AnnData)
    ensures
        (exists|i: int|
            0 <= i < stack_entries(*old(m)).len() && stack_entries(*old(m))[i].0 == key@)
            ==> (exists|i: int|
            0 <= i < stack_entries(*old(m)).len() && stack_entries(*old(m))[i].0 == key@
                && stack_entries(*final(m)) == stack_entries(*old(m)).update(i, (key@, value))),
        !(exists|i: int|
            0 <= i < stack_entries(*old(m)).len() && stack_entries(*old(m))[i].0 == key@)
            ==> stack_entries(*final(m)) == stack_entries(*old(m)).push((key@, value)),
{
    m.insert(key, value);
}

/// Relies on `IndexMap::len`: the number of entries.
#[verifier::external_body]
fn stack_len(m: &IndexMap<String, AnnData>) -> (r: usize)
    ensures
        r == stack_entries(*m).len(),
{
    m.len()
}

/// Relies on `IndexMap::get_index`: the entry at position `i`, none past
/// the end.
#[verifier::external_body]
fn stack_get(m: &IndexMap<String, AnnData>, i: usize) -> (r: Option<(&String, &AnnData)>)
    ensures
        i < stack_entries(*m).len() ==> r is Some,
        i < stack_entries(*m).len() ==> (r->0).0@ == stack_entries(*m)[i as int].0,
        i < stack_entries(*m).len() ==> *(r->0).1 == stack_entries(*m)[i as int].1,
        i >= stack_entries(*m).len() ==> r is None,
{
    m.get_index(i)
}

/// The column `name` of the observation frames of the first `k` children,
/// one after the other; `None` when one of them has no such column.
pub open spec fn stacked_column(children: Seq<(Seq<char>, AnnData)>, name: Seq<char>, k: int) -> Option<
    Seq<Seq<char>>,
>
    decreases k,
{
    if k <= 0 {
        Some(Seq::empty())
    } else {
        match (stacked_column(children, name, k - 1), lookup(children[k - 1].1.obs_spec(), name)) {
            (Some(a), Some(v)) => Some(a + strs(v@)),
            _ => None,
        }
    }
}

proof fn lemma_stacked_column_none(children: Seq<(Seq<char>, AnnData)>, name: Seq<char>, i: int, k: int)
    requires
        0 <= i <= k,
        stacked_column(children, name, i) is None,
    ensures
        stacked_column(children, name, k) is None,
    decreases k - i,
{
    if i < k {
        lemma_stacked_column_none(children, name, i, k - 1);
    }
}

/// The children can be stacked: there is at least one, their keys are
/// distinct, they name their variables alike, their observations together
/// fit in `usize`, and their matrices can be stacked when all have one.
pub open spec fn stack_cond(children: Seq<(String, AnnData)>) -> bool {
    &&& children.len() > 0
    &&& keys_unique(entry_keys(children))
    &&& forall|i: int|
        0 <= i < children.len() ==> same_var_names(children[0].1, #[trigger] children[i].1)
    &&& size_prefix(obs_counts(children), children.len() as int) <= usize::MAX
    &&& all_have_x(children) ==> x_stackable(children)
}

/// The children with their keys seen as character sequences.
pub open spec fn keyed(children: Seq<(String, AnnData)>) -> Seq<(Seq<char>, AnnData)> {
    Seq::new(children.len(), |i: int| (children[i].0@, children[i].1))
}

/// The numbers of observations of the children, in order.
pub open spec fn obs_counts<K>(children: Seq<(K, AnnData)>) -> Seq<usize> {
    Seq::new(children.len(), |i: int| dim_size(children[i].1.obs_dim()) as usize)
}

/// The two objects name their variables alike: both leave them unnamed, or
/// both give the same names in the same order.
pub open spec fn same_var_names(a: AnnData, b: AnnData) -> bool {
    &&& (a.var_names_spec() is Some) == (b.var_names_spec() is Some)
    &&& names_of(a.var_names_spec()) == names_of(b.var_names_spec())
}

pub open spec fn all_have_x<K>(children: Seq<(K, AnnData)>) -> bool {
    forall|i: int| 0 <= i < children.len() ==> (#[trigger] children[i]).1.x_spec() is Some
}

/// The matrices of the children, in order.
pub open spec fn x_stack<K>(children: Seq<(K, AnnData)>) -> Seq<ArrayData> {
    Seq::new(children.len(), |i: int| children[i].1.x_spec()->0)
}

/// The matrices of the children can be stacked.
pub open spec fn x_stackable<K>(children: Seq<(K, AnnData)>) -> bool {
    &&& same_encoding(x_stack(children))
    &&& same_ncols(x_stack(children))
    &&& size_prefix(row_counts(x_stack(children)), children.len() as int) <= usize::MAX
}

/// Several objects seen as one, stacked along the observations; each keeps
/// its own storage.
#[derive(Debug)]
pub struct StackedAnnData {
    index: VecVecIndex,
    elems: IndexMap<String, AnnData>,
    n_obs: usize,
    n_vars: usize,
    x: Option<StackedArrayElem>,
    obsm: StackedAxisArrays,
}

impl StackedAnnData {
    pub closed spec fn elems_spec(&self) -> Seq<(Seq<char>, AnnData)> {
        stack_entries(self.elems)
    }

    pub closed spec fn n_obs_spec(&self) -> nat {
        self.n_obs as nat
    }

    pub closed spec fn n_vars_spec(&self) -> nat {
        self.n_vars as nat
    }

    pub closed spec fn x_spec(&self) -> Option<StackedArrayElem> {
        self.x
    }

    pub closed spec fn offsets(&self) -> Seq<usize> {
        self.index@
    }

    pub closed spec fn wf(&self) -> bool {
        &&& offsets_wf(self.index@)
        &&& self.index@.len() == self.elems_spec().len() + 1
        &&& forall|p: int|
            0 <= p <= self.elems_spec().len() ==> self.index@[p] == size_prefix(obs_counts(self.elems_spec()), p)
        &&& self.n_obs == size_prefix(obs_counts(self.elems_spec()), self.elems_spec().len() as int)
        &&& forall|p: int| 0 <= p < self.elems_spec().len() ==> (#[trigger] self.elems_spec()[p]).1.wf()
        &&& self.x matches Some(x) ==> x.wf() && x@.0.len() == self.n_obs
        &&& self.elems_spec().len() > 0
        &&& self.n_vars == dim_size(self.elems_spec()[0].1.var_dim())
        &&& (self.x is Some) == all_have_x(self.elems_spec())
        &&& self.x matches Some(x) ==> x@.0 == concat_rows(
            x_stack(self.elems_spec()),
            self.elems_spec().len() as int,
        ) && x@.1 == x_stack(self.elems_spec())[0].ncols
    }

    /// What a well-formed stack holds: the offsets are the prefix sums of
    /// the children's numbers of observations, which add up to `n_obs`;
    /// `n_vars` is the first child's; every child is well formed.
    pub proof fn lemma_sizes(&self)
        requires
            self.wf(),
        ensures
            self.elems_spec().len() > 0,
            self.offsets().len() == self.elems_spec().len() + 1,
            forall|p: int|
                0 <= p <= self.elems_spec().len() ==> #[trigger] self.offsets()[p] == size_prefix(
                    obs_counts(self.elems_spec()),
                    p,
                ),
            self.n_obs_spec() == size_prefix(
                obs_counts(self.elems_spec()),
                self.elems_spec().len() as int,
            ),
            self.n_vars_spec() == dim_size(self.elems_spec()[0].1.var_dim()),
            forall|p: int| 0 <= p < self.elems_spec().len() ==> (#[trigger] self.elems_spec()[p]).1.wf(),
            self.x_spec() matches Some(x) ==> x@.0.len() == self.n_obs_spec(),
    {
    }

    /// The stacked matrix holds the rows of the children's matrices, in
    /// order, with the width of the first.
    pub proof fn lemma_x_rows(&self)
        requires
            self.wf(),
        ensures
            self.x_spec() matches Some(x) ==> x.wf() && all_have_x(self.elems_spec()) && x@.0
                == concat_rows(x_stack(self.elems_spec()), self.elems_spec().len() as int) && x@.1
                == x_stack(self.elems_spec())[0].ncols,
            self.x_spec() is None ==> !all_have_x(self.elems_spec()),
    {
    }

    /// Stacks the objects in order. Fails with `MissingKey` when there is
    /// none, with `DimensionMismatch` when they do not name their variables
    /// alike (the names of the first are the reference) or when the total
    /// number of observations does not fit in `usize`, and as
    /// `StackedArrayElem::new` when their matrices cannot be stacked. The
    /// stacked matrix is absent when one of them has none.
    /// The keys must be distinct: a key names one child in the locations
    /// table and in the observation labels, and two children under one key
    /// could not be told apart there; which of them to keep is the caller's
    /// choice.
    pub fn new(children: Vec<(String, AnnData)>) -> (r: Result<Self, AnnError>)
        requires
            forall|i: int| 0 <= i < children@.len() ==> (#[trigger] children@[i]).1.wf(),
        ensures
            children@.len() == 0 ==> r == Err::<Self, AnnError>(AnnError::MissingKey),
            children@.len() > 0 && !keys_unique(entry_keys(children@)) ==> r == Err::<Self, AnnError>(
                AnnError::DuplicateKey,
            ),
            children@.len() > 0 && keys_unique(entry_keys(children@)) && (exists|i: int|
                0 <= i < children@.len() && !same_var_names(children@[0].1, #[trigger] children@[i].1))
                ==> r == Err::<Self, AnnError>(AnnError::DimensionMismatch),
            r is Ok <==> stack_cond(children@),
            r matches Ok(s) ==> {
                &&& s.wf()
                &&& s.offsets().len() == children@.len() + 1
                &&& forall|p: int|
                    0 <= p <= children@.len() ==> #[trigger] s.offsets()[p] == size_prefix(
                        obs_counts(children@),
                        p,
                    )
                &&& s.elems_spec() == keyed(children@)
                &&& s.n_obs_spec() == size_prefix(obs_counts(children@), children@.len() as int)
                &&& s.n_vars_spec() == dim_size(children@[0].1.var_dim())
                &&& all_have_x(children@) ==> (s.x_spec() matches Some(x) && x@.0 == concat_rows(
                    x_stack(children@),
                    children@.len() as int,
                ))
                &&& !all_have_x(children@) ==> s.x_spec() is None
            },
    {
        let n = children.len();
        if n == 0 {
            return Err(AnnError::MissingKey);
        }
        if !keys_distinct(&children) {
            return Err(AnnError::DuplicateKey);
        }
        let first_named = children[0].1.has_var_names();
        let first_names = children[0].1.var_names();
        let mut i: usize = 0;
        while i < n
            invariant
                n == children@.len(),
                keys_unique(entry_keys(children@)),
                n > 0,
                i <= n,
                forall|t: int| 0 <= t < n ==> (#[trigger] children@[t]).1.wf(),
                first_named == (children@[0].1.var_names_spec() is Some),
                strs(first_names@) == names_of(children@[0].1.var_names_spec()),
                forall|t: int| 0 <= t < i ==> same_var_names(children@[0].1, #[trigger] children@[t].1),
            decreases n - i,
        {
            let named = children[i].1.has_var_names();
            let names = children[i].1.var_names();
            if named != first_named || !strings_eq(&names, &first_names) {
                proof {
                    assert(!same_var_names(children@[0].1, children@[i as int].1));
                }
                return Err(AnnError::DimensionMismatch);
            }
            i = i + 1;
        }
        let mut sizes: Vec<usize> = Vec::new();
        let mut total: usize = 0;
        let mut i: usize = 0;
        while i < n
            invariant
                n == children@.len(),
                keys_unique(entry_keys(children@)),
                i <= n,
                sizes@ == obs_counts(children@).subrange(0, i as int),
                total == size_prefix(obs_counts(children@), i as int),
            decreases n - i,
        {
            let c = children[i].1.n_obs();
            proof {
                lemma_prefix_le(obs_counts(children@), i as int + 1, n as int);
            }
            if c > usize::MAX - total {
                return Err(AnnError::DimensionMismatch);
            }
            total = total + c;
            sizes.push(c);
            i = i + 1;
        }
        assert(sizes@ =~= obs_counts(children@));
        let index = VecVecIndex::new(&sizes);
        let mut all_x = true;
        let mut xs: Vec<ArrayData> = Vec::new();
        let mut i: usize = 0;
        while i < n
            invariant
                n == children@.len(),
                keys_unique(entry_keys(children@)),
                i <= n,
                forall|t: int| 0 <= t < n ==> (#[trigger] children@[t]).1.wf(),
                all_x == forall|t: int| 0 <= t < i ==> (#[trigger] children@[t]).1.x_spec() is Some,
                all_x ==> xs@.len() == i,
                all_x ==> forall|t: int|
                    0 <= t < i ==> crate::axis::copy_of(#[trigger] xs@[t], x_stack(children@)[t]),
            decreases n - i,
        {
            match children[i].1.read_x() {
                Some(a) => {
                    if all_x {
                        let ghost before = xs@;
                        xs.push(a.copy());
                        proof {
                            assert forall|t: int| 0 <= t < i + 1 implies crate::axis::copy_of(
                                #[trigger] xs@[t],
                                x_stack(children@)[t],
                            ) by {
                                if t < i {
                                    assert(xs@[t] == before[t]);
                                }
                            }
                        }
                    }
                },
                None => {
                    all_x = false;
                },
            }
            i = i + 1;
        }
        let x = if all_x {
            proof {
                crate::axis::lemma_copies_stack(xs@, x_stack(children@));
                crate::stacked::lemma_stacked_rows_len(x_stack(children@), n as int);
                assert(row_counts(x_stack(children@)) =~= obs_counts(children@)) by {
                    assert forall|t: int| 0 <= t < n implies row_counts(x_stack(children@))[t]
                        == obs_counts(children@)[t] by {
                        assert(children@[t].1.wf());
                    }
                }
            }
            match StackedArrayElem::new(xs) {
                Ok(s) => Some(s),
                Err(e) => {
                    return Err(e);
                },
            }
        } else {
            None
        };
        let n_vars = children[0].1.n_vars();
        let mut refs: Vec<&AxisArrays> = Vec::new();
        let mut i: usize = 0;
        while i < n
            invariant
                n == children@.len(),
                keys_unique(entry_keys(children@)),
                i <= n,
                refs@.len() == i,
                forall|t: int| 0 <= t < n ==> (#[trigger] children@[t]).1.wf(),
                forall|t: int| 0 <= t < i ==> *(#[trigger] refs@[t]) == children@[t].1.obsm_spec(),
            decreases n - i,
        {
            refs.push(children[i].1.obsm());
            i = i + 1;
        }
        proof {
            assert forall|p: int| 0 <= p < refs@.len() implies ((#[trigger] refs@[p]).slot() matches Some(c)
                ==> c.wf() && forall|i: int| 0 <= i < c.entries().len() ==> (#[trigger] c.entries()[i]).1.wf()) by {
                assert(children@[p].1.wf());
                let c = refs@[p].slot()->0;
                assert forall|i: int| 0 <= i < c.entries().len() implies (#[trigger] c.entries()[i]).1.wf() by {
                    assert(crate::axis::conforms(Axis::Row, c.entries()[i].1, children@[p].1.obs_dim(), children@[p].1.var_dim()));
                }
            }
        }
        let obsm = match StackedAxisArrays::new(Axis::Row, &refs) {
            Ok(o) => o,
            Err(_) => StackedAxisArrays::empty(Axis::Row),
        };
        let elems = into_stack(children);
        proof {
            assert(obs_counts(keyed(children@)) =~= obs_counts(children@));
            assert(x_stack(keyed(children@)) =~= x_stack(children@));
            if all_have_x(children@) {
                assert forall|i: int| 0 <= i < keyed(children@).len() implies (#[trigger] keyed(children@)[i]).1.x_spec() is Some by {
                    assert(children@[i].1.x_spec() is Some);
                }
            } else {
                let i = choose|i: int| 0 <= i < children@.len() && !((#[trigger] children@[i]).1.x_spec() is Some);
                assert(keyed(children@)[i].1.x_spec() is None);
            }
        }
        Ok(StackedAnnData { index, elems, n_obs: total, n_vars, x, obsm })
    }

    /// Number of stacked objects.
    pub fn len(&self) -> (r: usize)
        ensures
            r == self.elems_spec().len(),
    {
        stack_len(&self.elems)
    }

    /// The key and the object at position `i`.
    pub fn child(&self, i: usize) -> (r: Option<(&String, &AnnData)>)
        ensures
            i < self.elems_spec().len() ==> (r matches Some(e) && e.0@ == self.elems_spec()[i as int].0
                && *e.1 == self.elems_spec()[i as int].1),
            i >= self.elems_spec().len() ==> r is None,
    {
        stack_get(&self.elems, i)
    }

    /// The keys of the stacked objects, in order.
    pub fn keys(&self) -> (r: Vec<String>)
        ensures
            strs(r@) == Seq::new(self.elems_spec().len(), |i: int| self.elems_spec()[i].0),
    {
        let n = stack_len(&self.elems);
        let mut out: Vec<String> = Vec::new();
        let mut i: usize = 0;
        while i < n
            invariant
                n == self.elems_spec().len(),
                i <= n,
                out@.len() == i,
                forall|t: int| 0 <= t < i ==> (#[trigger] out@[t])@ == self.elems_spec()[t].0,
            decreases n - i,
        {
            match stack_get(&self.elems, i) {
                Some((k, _)) => {
                    out.push(k.clone());
                },
                None => {},
            }
            i = i + 1;
        }
        assert(strs(out@) =~= Seq::new(self.elems_spec().len(), |i: int| self.elems_spec()[i].0));
        out
    }

    pub fn n_obs(&self) -> (r: usize)
        ensures
            r == self.n_obs_spec(),
    {
        self.n_obs
    }

    pub fn n_vars(&self) -> (r: usize)
        ensures
            r == self.n_vars_spec(),
    {
        self.n_vars
    }

    /// The stacked matrix, when every object has a matrix.
    pub fn get_x(&self) -> (r: Option<&StackedArrayElem>)
        ensures
            match r {
                Some(x) => self.x_spec() == Some(*x),
                None => self.x_spec() is None,
            },
    {
        match &self.x {
            Some(x) => Some(x),
            None => None,
        }
    }

    /// The column `name` of the observation frames of all objects, one
    /// after the other; `None` when an object has no such column.
    pub fn obs_column(&self, name: &str) -> (r: Option<Vec<String>>)
        requires
            self.wf(),
        ensures
            match stacked_column(self.elems_spec(), name@, self.elems_spec().len() as int) {
                Some(c) => r matches Some(v) && strs(v@) == c,
                None => r is None,
            },
    {
        let n = stack_len(&self.elems);
        let mut out: Vec<String> = Vec::new();
        let mut i: usize = 0;
        while i < n
            invariant
                self.wf(),
                n == self.elems_spec().len(),
                i <= n,
                stacked_column(self.elems_spec(), name@, i as int) == Some(strs(out@)),
            decreases n - i,
        {
            let (_, child) = match stack_get(&self.elems, i) {
                Some(e) => e,
                None => {
                    return None;
                },
            };
            assert(child.wf());
            match child.obs_column(name) {
                Some(col) => {
                    let ghost before = out@;
                    let mut t: usize = 0;
                    while t < col.len()
                        invariant
                            t <= col@.len(),
                            out@.len() == before.len() + t,
                            forall|u: int| 0 <= u < before.len() ==> out@[u] == before[u],
                            forall|u: int| 0 <= u < t ==> out@[before.len() + u]@ == col@[u]@,
                        decreases col@.len() - t,
                    {
                        out.push(col[t].clone());
                        t = t + 1;
                    }
                    proof {
                        assert(strs(out@) =~= strs(before) + strs(col@));
                    }
                },
                None => {
                    proof {
                        lemma_stacked_column_none(self.elems_spec(), name@, i as int + 1, n as int);
                    }
                    return None;
                },
            }
            i = i + 1;
        }
        Some(out)
    }

    /// The arrays aligned with the observations, stacked name by name.
    pub fn get_obsm(&self) -> (r: &StackedAxisArrays)
        ensures
            *r == self.obsm_spec(),
    {
        &self.obsm
    }

    /// `plan` writes the selection: each object reads its own rows (in the
    /// order of the selection, for a selection other than a unit-step
    /// slice), the
    /// rows given back are `plan.rows`, in object order; with no map they are
    /// the selected rows in order (always so for a unit-step slice), and
    /// otherwise `mapping` sends each selected row to its place among them
    /// and `order` is its reverse.
    pub open spec fn plan_ok(&self, selection: Seq<SelectInfoElem>, plan: SelectPlan) -> bool {
        let g = selection[0].indices(self.n_obs_spec());
        &&& plan.parts@.len() == self.elems_spec().len()
        &&& forall|p: int|
            0 <= p < plan.parts@.len() ==> #[trigger] plan.parts@[p].valid(
                part_size(self.offsets(), p),
            )
        &&& Seq::new(plan.rows@.len(), |j: int| plan.rows@[j] as int) == split_concat(
            self.offsets(),
            plan.parts@,
        )
        &&& (selection[0] matches SelectInfoElem::Slice(s) && s.step == 1) ==> plan.mapping is None
        &&& !(selection[0] matches SelectInfoElem::Slice(s) && s.step == 1) ==> forall|p: int|
            0 <= p < plan.parts@.len() ==> #[trigger] part_globals(self.offsets(), plan.parts@, p)
                == part_filter(self.offsets(), g, p, g.len() as int)
        &&& match (plan.mapping, plan.order) {
            (None, None) => Seq::new(plan.rows@.len(), |j: int| plan.rows@[j] as int) == g,
            (Some(m), Some(o)) => {
                &&& reorders(split_concat(self.offsets(), plan.parts@), g, m@)
                &&& o@.len() == g.len()
                &&& forall|i: int| 0 <= i < m@.len() ==> o@[#[trigger] m@[i] as int] == i
            },
            _ => false,
        }
    }

    /// Which objects a plan writes: those whose selection picks at least one
    /// of their rows.
    pub fn written_children(&self, plan: &SelectPlan) -> (r: Vec<bool>)
        requires
            self.wf(),
            plan.parts@.len() == self.elems_spec().len(),
            forall|p: int|
                0 <= p < plan.parts@.len() ==> #[trigger] plan.parts@[p].valid(
                    part_size(self.offsets(), p),
                ),
        ensures
            r@.len() == self.elems_spec().len(),
            forall|p: int|
                0 <= p < r@.len() ==> #[trigger] r@[p] == (plan.parts@[p].indices(
                    part_size(self.offsets(), p),
                ).len() > 0),
    {
        let n = self.index.n_partitions();
        let mut out: Vec<bool> = Vec::new();
        let mut p: usize = 0;
        while p < n
            invariant
                self.wf(),
                n == self.elems_spec().len(),
                plan.parts@.len() == n,
                forall|q: int|
                    0 <= q < plan.parts@.len() ==> #[trigger] plan.parts@[q].valid(
                        part_size(self.offsets(), q),
                    ),
                p <= n,
                out@.len() == p,
                forall|q: int|
                    0 <= q < p ==> #[trigger] out@[q] == (plan.parts@[q].indices(
                        part_size(self.offsets(), q),
                    ).len() > 0),
            decreases n - p,
        {
            let size = self.index.offset(p + 1) - self.index.offset(p);
            assert(size == part_size(self.offsets(), p as int));
            out.push(plan.parts[p].len(size) > 0);
            p = p + 1;
        }
        out
    }

    /// What writing a selection of the stacked objects takes: the selection
    /// of each object's observations, the global rows in the order in which
    /// the objects give them back, and, when that order is not the order of
    /// the selection, the maps between the two orders.
    /// Fails with `SelectionError` when the selection is not
    /// two-dimensional or picks observations out of bounds.
    pub fn write_select(&self, selection: &Vec<SelectInfoElem>) -> (r: Result<SelectPlan, AnnError>)
        requires
            self.wf(),
        ensures
            r is Ok <==> selection@.len() == 2 && selection@[0].valid(self.n_obs_spec()),
            r is Err ==> r == Err::<SelectPlan, AnnError>(AnnError::SelectionError),
            r matches Ok(plan) ==> self.plan_ok(selection@, plan),
    {
        if selection.len() != 2 {
            return Err(AnnError::SelectionError);
        }
        let n = self.index.len();
        assert(self.index@[self.elems_spec().len() as int] == size_prefix(
            obs_counts(self.elems_spec()),
            self.elems_spec().len() as int,
        ));
        assert(n == self.n_obs);
        if !selection[0].is_valid(n) {
            return Err(AnnError::SelectionError);
        }
        let ghost offs = self.index@;
        let ghost g = selection@[0].indices(n as nat);
        let (parts, mapping) = self.index.split_select(&selection[0]);
        let ghost ps = parts@;
        let np = self.index.n_partitions();
        let mut rows: Vec<usize> = Vec::new();
        let mut p: usize = 0;
        while p < np
            invariant
                offsets_wf(offs),
                offs == self.index@,
                np == offs.len() - 1,
                ps == parts@,
                ps.len() == np,
                forall|q: int| 0 <= q < np ==> #[trigger] ps[q].valid(part_size(offs, q)),
                p <= np,
                Seq::new(rows@.len(), |j: int| rows@[j] as int) == concat_globals(offs, ps, p as int),
            decreases np - p,
        {
            let lo = self.index.offset(p);
            let hi = self.index.offset(p + 1);
            assert(part_size(offs, p as int) == (hi - lo) as nat);
            assert(ps[p as int].valid(part_size(offs, p as int)));
            let local = parts[p].to_vec(hi - lo);
            let ghost before = rows@;
            let mut t: usize = 0;
            while t < local.len()
                invariant
                    offsets_wf(offs),
                    p < np,
                    np == offs.len() - 1,
                    lo == offs[p as int],
                    hi == offs[p + 1],
                    local@.len() == ps[p as int].indices(part_size(offs, p as int)).len(),
                    forall|u: int| 0 <= u < local@.len() ==> local@[u] as int == ps[p as int].indices(
                        part_size(offs, p as int),
                    )[u],
                    forall|u: int| 0 <= u < local@.len() ==> local@[u] < hi - lo,
                    t <= local@.len(),
                    rows@.len() == before.len() + t,
                    forall|u: int| 0 <= u < before.len() ==> rows@[u] == before[u],
                    forall|u: int|
                        0 <= u < t ==> rows@[before.len() + u] as int == local@[u] + lo,
                decreases local@.len() - t,
            {
                rows.push(local[t] + lo);
                t = t + 1;
            }
            proof {
                let c = concat_globals(offs, ps, p as int);
                let d = crate::vecvec::part_globals(offs, ps, p as int);
                assert(concat_globals(offs, ps, p as int + 1) == c + d);
                assert(Seq::new(rows@.len(), |j: int| rows@[j] as int) =~= c + d) by {
                    assert forall|j: int| 0 <= j < rows@.len() implies (rows@[j] as int) == (c + d)[j] by {
                        if j < before.len() {
                            assert(Seq::new(before.len(), |u: int| before[u] as int)[j] == c[j]);
                        } else {
                            let u = j - before.len();
                            assert(rows@[before.len() + u] as int == local@[u] + lo);
                            assert(d[u] == ps[p as int].indices(part_size(offs, p as int))[u] + offs[p as int]);
                        }
                    }
                }
            }
            p = p + 1;
        }
        let ghost ms = match &mapping {
            Some(m) => Some(m@),
            None => None,
        };
        proof {
            assert(split_ok(offs, g, ps, ms));
        }
        let order = match &mapping {
            None => None,
            Some(m) => {
                let total = selection[0].len(n);
                let o = reverse_mapping(m.as_slice(), total);
                proof {
                    crate::vecvec::lemma_reverse_mapping_inverts(m@);
                    assert forall|i: int| 0 <= i < m@.len() implies o@[#[trigger] m@[i] as int] == i by {
                        assert(m@[i] < total);
                        assert(o@[m@[i] as int] as int == crate::vecvec::last_sent_to(m@, m@[i] as int, m@.len() as int));
                    }
                }
                Some(o)
            },
        };
        Ok(SelectPlan { parts, rows, mapping, order })
    }
}

/// The ordered map of the children, in order; their keys are distinct.
fn into_stack(children: Vec<(String, AnnData)>) -> (r: IndexMap<String, AnnData>)
    requires
        keys_unique(entry_keys(children@)),
    ensures
        stack_entries(r) == keyed(children@),
{
    let ghost all = children@;
    let n = children.len();
    let mut src = children;
    let mut rev: Vec<(String, AnnData)> = Vec::new();
    while src.len() > 0
        invariant
            src@ + rev@.reverse() == all,
        decreases src@.len(),
    {
        let e = src.pop().unwrap();
        proof {
            assert(src@.push(e) + rev@.reverse() == all);
        }
        let ghost before = rev@;
        rev.push(e);
        proof {
            assert(rev@.reverse() =~= seq![e] + before.reverse());
            assert(src@ + rev@.reverse() =~= src@.push(e) + before.reverse());
        }
    }
    assert(rev@.reverse() =~= all);
    let mut m = stack_new();
    let mut k: usize = 0;
    assert(stack_entries(m) =~= keyed(all.subrange(0, 0)));
    while rev.len() > 0
        invariant
            n == all.len(),
            keys_unique(entry_keys(all)),
            rev@.len() + k == n,
            forall|t: int| 0 <= t < rev@.len() ==> rev@[t] == all[n - 1 - t],
            stack_entries(m) == keyed(all.subrange(0, k as int)),
        decreases rev@.len(),
    {
        let (key, v) = rev.pop().unwrap();
        proof {
            assert(all[k as int] == (key, v));
            assert(!(exists|i: int| 0 <= i < stack_entries(m).len() && stack_entries(m)[i].0 == key@)) by {
                if exists|i: int| 0 <= i < stack_entries(m).len() && stack_entries(m)[i].0 == key@ {
                    let i = choose|i: int| 0 <= i < stack_entries(m).len() && stack_entries(m)[i].0 == key@;
                    assert(entry_keys(all)[i] == entry_keys(all)[k as int]);
                }
            }
        }
        stack_insert(&mut m, key, v);
        proof {
            assert(keyed(all.subrange(0, k as int + 1)) =~= keyed(all.subrange(0, k as int)).push((key@, v)));
        }
        k = k + 1;
    }
    assert(all.subrange(0, n as int) =~= all);
    m
}

/// How a selection of stacked objects is written: see
/// `StackedAnnData::write_select`.
#[derive(Debug)]
pub struct SelectPlan {
    /// The selection of each object's observations.
    pub parts: Vec<SelectInfoElem>,
    /// The global rows, in the order in which the objects give them back.
    pub rows: Vec<usize>,
    /// When that order is not the order of the selection: row `i` of the
    /// selection is row `mapping[i]` given back.
    pub mapping: Option<Vec<usize>>,
    /// The reverse of `mapping`: row `j` given back is row `order[j]` of the
    /// selection.
    pub order: Option<Vec<usize>>,
}

/// Whether two lists of strings are equal.
pub fn strings_eq(a: &Vec<String>, b: &Vec<String>) -> (r: bool)
    ensures
        r == (strs(a@) == strs(b@)),
{
    if a.len() != b.len() {
        assert(strs(a@).len() != strs(b@).len());
        return false;
    }
    let mut i: usize = 0;
    while i < a.len()
        invariant
            a@.len() == b@.len(),
            i <= a@.len(),
            forall|t: int| 0 <= t < i ==> a@[t]@ == b@[t]@,
        decreases a@.len() - i,
    {
        if !a[i].eq(&b[i]) {
            proof {
                assert(strs(a@)[i as int] != strs(b@)[i as int]);
            }
            return false;
        }
        i = i + 1;
    }
    assert(strs(a@) =~= strs(b@));
    true
}

proof fn lemma_prefix_le(sizes: Seq<usize>, i: int, j: int)
    requires
        0 <= i <= j,
    ensures
        size_prefix(sizes, i) <= size_prefix(sizes, j),
    decreases j - i,
{
    if i < j {
        lemma_prefix_le(sizes, i, j - 1);
    }
}

/// The names of the observations of the first `k` children, one after
/// the other.
pub open spec fn concat_obs_names(children: Seq<(String, AnnData)>, k: int) -> Seq<Seq<char>>
    decreases k,
{
    if k <= 0 {
        Seq::empty()
    } else {
        concat_obs_names(children, k - 1) + names_of(children[k - 1].1.obs_names_spec())
    }
}

/// For each observation of the first `k` children, the key of its child.
pub open spec fn batch_labels(children: Seq<(String, AnnData)>, k: int) -> Seq<Seq<char>>
    decreases k,
{
    if k <= 0 {
        Seq::empty()
    } else {
        batch_labels(children, k - 1) + Seq::new(
            dim_size(children[k - 1].1.obs_dim()),
            |i: int| children[k - 1].0@,
        )
    }
}

/// The table that records where the children are stored.
pub open spec fn locations_table(keys: Seq<Seq<char>>, paths: Seq<Seq<char>>) -> Seq<(Seq<char>, Seq<Seq<char>>)> {
    seq![("keys"@, keys), ("file_path"@, paths)]
}

/// Several objects stacked along the observations, with an annotation
/// object that holds what describes the stack as a whole: the names of all
/// observations, the key of the child of each observation, and where the
/// children are stored (under `AnnDataSet` among its unconstrained values).
#[derive(Debug)]
pub struct AnnDataSet {
    annotation: AnnData,
    anndatas: StackedAnnData,
}

impl AnnDataSet {
    pub closed spec fn annotation_spec(&self) -> AnnData {
        self.annotation
    }

    pub closed spec fn anndatas_spec(&self) -> StackedAnnData {
        self.anndatas
    }

    /// Both parts are well formed, and the annotation has as many
    /// observations and variables as the stack.
    pub open spec fn wf(&self) -> bool {
        &&& self.annotation_spec().wf()
        &&& self.anndatas_spec().wf()
        &&& self.annotation_spec().obs_dim() == Some(self.anndatas_spec().n_obs_spec() as usize)
        &&& self.annotation_spec().var_dim() == Some(self.anndatas_spec().n_vars_spec() as usize)
    }

    /// Stacks the children, stored at `file_paths`, and builds the
    /// annotation: as many observations and variables as the stack, names
    /// for the observations, the column `add_key` with the
    /// key of each observation's child, the variable names of the first
    /// child, and the table of keys and file paths under `AnnDataSet`.
    /// The observation names are those of the children one after the other
    /// when every child names its observations, and row numbers otherwise.
    /// Fails as `StackedAnnData::new` does.
    /// The keys must be distinct: a key names one child in the locations
    /// table and in the observation labels, and two children under one key
    /// could not be told apart there; which of them to keep is the caller's
    /// choice.
    pub fn new(data: Vec<(String, AnnData)>, file_paths: Vec<String>, add_key: &str) -> (r: Result<
        Self,
        AnnError,
    >)
        requires
            forall|i: int| 0 <= i < data@.len() ==> (#[trigger] data@[i]).1.wf(),
            file_paths@.len() == data@.len(),
        ensures
            data@.len() > 0 && !keys_unique(entry_keys(data@)) ==> r == Err::<Self, AnnError>(
                AnnError::DuplicateKey,
            ),
            r matches Ok(ds) ==> {
                let a = ds.annotation_spec();
                let total = size_prefix(obs_counts(data@), data@.len() as int);
                &&& ds.wf()
                &&& ds.anndatas_spec().elems_spec() == keyed(data@)
                &&& ds.anndatas_spec().n_obs_spec() == total
                &&& ds.anndatas_spec().n_vars_spec() == dim_size(data@[0].1.var_dim())
                &&& forall|p: int|
                    0 <= p <= data@.len() ==> #[trigger] ds.anndatas_spec().offsets()[p] == size_prefix(
                        obs_counts(data@),
                        p,
                    )
                &&& a.obs_dim() == Some(total as usize)
                &&& a.var_dim() == Some(dim_size(data@[0].1.var_dim()) as usize)
                &&& lookup(a.uns_spec().entries(), "AnnDataSet"@) matches Some(Data::Table(t))
                    && table_view(t@) == locations_table(entry_keys(data@), strs(file_paths@))
                &&& lookup(a.obs_spec(), add_key@) matches Some(v) && strs(v@) == batch_labels(
                    data@,
                    data@.len() as int,
                )
                &&& names_of(a.var_names_spec()) == names_of(data@[0].1.var_names_spec())
                &&& names_of(a.obs_names_spec()) == if concat_obs_names(data@, data@.len() as int).len()
                    == total {
                    concat_obs_names(data@, data@.len() as int)
                } else {
                    range_names(0, total as usize)
                }
            },
            r is Ok <==> stack_cond(data@),
    {
        let keys = key_list(&data);
        let n = data.len();
        let mut names: Vec<String> = Vec::new();
        let mut labels: Vec<String> = Vec::new();
        let mut i: usize = 0;
        while i < n
            invariant
                n == data@.len(),
                i <= n,
                forall|t: int| 0 <= t < n ==> (#[trigger] data@[t]).1.wf(),
                strs(names@) == concat_obs_names(data@, i as int),
                strs(labels@) == batch_labels(data@, i as int),
            decreases n - i,
        {
            let child_names = data[i].1.obs_names();
            let ghost nb = names@;
            let mut t: usize = 0;
            while t < child_names.len()
                invariant
                    t <= child_names@.len(),
                    names@.len() == nb.len() + t,
                    forall|u: int| 0 <= u < nb.len() ==> names@[u] == nb[u],
                    forall|u: int| 0 <= u < t ==> names@[nb.len() + u]@ == child_names@[u]@,
                decreases child_names@.len() - t,
            {
                names.push(child_names[t].clone());
                t = t + 1;
            }
            proof {
                assert(strs(names@) =~= strs(nb) + strs(child_names@));
            }
            let count = data[i].1.n_obs();
            let ghost lb = labels@;
            let mut t: usize = 0;
            while t < count
                invariant
                    i < n,
                    n == data@.len(),
                    t <= count,
                    labels@.len() == lb.len() + t,
                    forall|u: int| 0 <= u < lb.len() ==> labels@[u] == lb[u],
                    forall|u: int| lb.len() <= u < lb.len() + t ==> (#[trigger] labels@[u])@ == data@[i as int].0@,
                decreases count - t,
            {
                labels.push(data[i].0.clone());
                t = t + 1;
            }
            proof {
                assert(strs(labels@) =~= strs(lb) + Seq::new(
                    dim_size(data@[i as int].1.obs_dim()),
                    |u: int| data@[i as int].0@,
                ));
            }
            i = i + 1;
        }
        let first_named = if n > 0 {
            data[0].1.has_var_names()
        } else {
            false
        };
        let var_names = if n > 0 {
            data[0].1.var_names()
        } else {
            Vec::new()
        };
        let ghost children = data@;
        proof {
            lemma_labels_len(children, n as int);
        }
        let anndatas = StackedAnnData::new(data)?;
        let total = anndatas.n_obs();
        let n_vars = anndatas.n_vars();
        let mut annotation = AnnData::new(total, n_vars);
        let table_name = "AnnDataSet".to_owned();
        let keys_name = "keys".to_owned();
        let paths_name = "file_path".to_owned();
        proof {
            reveal_strlit("AnnDataSet");
            reveal_strlit("keys");
            reveal_strlit("file_path");
        }
        let table = vec![(keys_name, keys), (paths_name, file_paths)];
        proof {
            assert(table_view(table@) =~= locations_table(entry_keys(children), strs(file_paths@)));
        }
        annotation.add_uns(table_name.as_str(), Data::Table(table));
        if names.len() == total {
            let _ = annotation.set_obs_names(DataFrameIndex::from_names(names));
        } else {
            let _ = annotation.set_obs_names(DataFrameIndex::from_range(0, total));
        }
        let _ = annotation.set_obs_column(add_key, labels);
        if first_named {
            proof {
                assert(children[0].1.wf());
                let ix = children[0].1.var_names_spec()->0;
                ix.lemma_len_bounded();
                assert(strs(var_names@).len() == var_names@.len());
                assert(var_names@.len() == n_vars);
            }
            let r = annotation.set_var_names(DataFrameIndex::from_names(var_names));
            assert(r is Ok);
        }
        Ok(AnnDataSet { annotation, anndatas })
    }

    /// The annotation object.
    pub fn get_anno(&self) -> (r: &AnnData)
        ensures
            *r == self.annotation_spec(),
    {
        &self.annotation
    }

    /// The stacked matrix, when every child has a matrix.
    pub fn get_x(&self) -> (r: Option<&StackedArrayElem>)
        ensures
            match r {
                Some(x) => self.anndatas_spec().x_spec() == Some(*x),
                None => self.anndatas_spec().x_spec() is None,
            },
    {
        self.anndatas.get_x()
    }

    /// The stacked children.
    pub fn anndatas(&self) -> (r: &StackedAnnData)
        ensures
            *r == self.anndatas_spec(),
    {
        &self.anndatas
    }

    pub fn n_obs(&self) -> (r: usize)
        ensures
            r == self.anndatas_spec().n_obs_spec(),
    {
        self.anndatas.n_obs()
    }

    pub fn n_vars(&self) -> (r: usize)
        ensures
            r == self.anndatas_spec().n_vars_spec(),
    {
        self.anndatas.n_vars()
    }

    /// The matrix of a stack is virtual: it cannot be set.
    pub fn set_x(&mut self, data: ArrayData) -> (r: Result<(), AnnError>)
        ensures
            r == Err::<(), AnnError>(AnnError::UnsupportedOnDataset),
            *final(self) == *old(self),
    {
        Err(AnnError::UnsupportedOnDataset)
    }

    /// The matrix of a stack is virtual: it cannot be removed.
    pub fn del_x(&mut self) -> (r: Result<(), AnnError>)
        ensures
            r == Err::<(), AnnError>(AnnError::UnsupportedOnDataset),
            *final(self) == *old(self),
    {
        Err(AnnError::UnsupportedOnDataset)
    }

    /// The variable names of a stack come from its children: they cannot be
    /// set.
    pub fn set_var_names(&mut self, index: DataFrameIndex) -> (r: Result<(), AnnError>)
        ensures
            r == Err::<(), AnnError>(AnnError::UnsupportedOnDataset),
            *final(self) == *old(self),
    {
        Err(AnnError::UnsupportedOnDataset)
    }

    /// The whole stacked matrix: the rows of the children's matrices, one
    /// after the other; `None` when a child has no matrix.
    pub fn read_x(&self) -> (r: Option<ArrayData>)
        requires
            self.wf(),
        ensures
            (r is Some) == all_have_x(self.anndatas_spec().elems_spec()),
            r matches Some(a) ==> a.wf() && a.rows_view() == concat_rows(
                x_stack(self.anndatas_spec().elems_spec()),
                self.anndatas_spec().elems_spec().len() as int,
            ),
            r matches Some(a) ==> a.ncols == x_stack(self.anndatas_spec().elems_spec())[0].ncols,
    {
        proof {
            self.anndatas.lemma_x_rows();
        }
        match self.anndatas.get_x() {
            Some(x) => Some(x.data()),
            None => None,
        }
    }

    /// A selection of the stacked matrix, read from the children that hold
    /// the selected rows: the rows picked by `sel[0]` among the rows of the
    /// children's matrices one after the other, restricted to the columns
    /// picked by `sel[1]`; `None` when a child has no matrix. Fails with
    /// `SelectionError` when the selection is not two-dimensional or out of
    /// bounds.
    pub fn read_x_slice(&self, sel: &Vec<SelectInfoElem>) -> (r: Result<Option<ArrayData>, AnnError>)
        requires
            self.wf(),
        ensures
            !all_have_x(self.anndatas_spec().elems_spec()) ==> r == Ok::<Option<ArrayData>, AnnError>(None),
            all_have_x(self.anndatas_spec().elems_spec()) ==> {
                let e = self.anndatas_spec().elems_spec();
                let rows = concat_rows(x_stack(e), e.len() as int);
                let width = x_stack(e)[0].ncols as nat;
                &&& r is Ok <==> (sel@.len() == 2 && sel@[0].valid(rows.len()) && sel@[1].valid(width))
                &&& r is Err ==> r == Err::<Option<ArrayData>, AnnError>(AnnError::SelectionError)
                &&& r matches Ok(Some(a)) ==> a.rows_view() == select_rows(
                    rows,
                    sel@[0].indices(rows.len()),
                    sel@[1].indices(width),
                )
                &&& !(r matches Ok(None))
            },
    {
        proof {
            self.anndatas.lemma_x_rows();
        }
        match self.anndatas.get_x() {
            Some(x) => {
                match x.select(sel) {
                    Ok(a) => Ok(Some(a)),
                    Err(e) => Err(e),
                }
            },
            None => Ok(None),
        }
    }

    /// The positions of the observations with the given names, looked up in
    /// the annotation.
    pub fn obs_ix(&self, names: &Vec<String>) -> (r: Result<Vec<usize>, AnnError>)
        requires
            self.wf(),
        ensures
            positions_ok(names_of(self.annotation_spec().obs_names_spec()), strs(names@), r),
    {
        self.annotation.obs_ix(names)
    }

    pub fn obs_names(&self) -> (r: Vec<String>)
        requires
            self.wf(),
        ensures
            strs(r@) == names_of(self.annotation_spec().obs_names_spec()),
    {
        self.annotation.obs_names()
    }

    pub fn var_names(&self) -> (r: Vec<String>)
        requires
            self.wf(),
        ensures
            strs(r@) == names_of(self.annotation_spec().var_names_spec()),
    {
        self.annotation.var_names()
    }

    /// What writing a selection of the dataset takes: the plan for the
    /// children (see `StackedAnnData::write_select`) and the selection of the
    /// annotation's observations, put in the order in which the children
    /// give their rows back so that both agree row by row.
    pub fn write_select(&self, selection: &Vec<SelectInfoElem>) -> (r: Result<(SelectPlan, SelectInfoElem), AnnError>)
        requires
            self.wf(),
        ensures
            r is Ok <==> selection@.len() == 2 && selection@[0].valid(self.anndatas_spec().n_obs_spec()),
            r is Err ==> r == Err::<(SelectPlan, SelectInfoElem), AnnError>(AnnError::SelectionError),
            r matches Ok((plan, rows)) ==> self.anndatas_spec().plan_ok(selection@, plan)
                && rows.indices(self.anndatas_spec().n_obs_spec()) == split_concat(
                self.anndatas_spec().offsets(),
                plan.parts@,
            ),
    {
        let plan = self.anndatas.write_select(selection)?;
        let n = self.anndatas.n_obs();
        let rows = match &plan.order {
            Some(_) => SelectInfoElem::Index(crate::selection::copy_usizes(&plan.rows)),
            None => selection[0].clone_sel(),
        };
        proof {
            let c = split_concat(self.anndatas.offsets(), plan.parts@);
            assert(rows.indices(n as nat) =~= c);
        }
        Ok((plan, rows))
    }
}

impl AnnDataSet {
    /// The dataset made of an annotation object read back from storage and
    /// the children that its table records. The table is read first: when
    /// it does not decode (see `stored_locations`) that error is returned.
    /// The children must come under the keys of the table, in its order
    /// (`MissingKey` otherwise), and must stack (see `StackedAnnData::new`);
    /// the annotation must have as many observations and variables as the
    /// stack (`DimensionMismatch` otherwise). When `new_locations` is not
    /// empty, the table's file paths are replaced by those it gives (see
    /// `update_anndata_locations`); a key given twice there is
    /// `DuplicateKey`.
    pub fn open(annotation: AnnData, children: Vec<(String, AnnData)>, new_locations: &Vec<(String, String)>) -> (r: Result<Self, AnnError>)
        requires
            annotation.wf(),
            forall|i: int| 0 <= i < children@.len() ==> (#[trigger] children@[i]).1.wf(),
        ensures
            !keys_unique(entry_keys(new_locations@)) ==> r == Err::<Self, AnnError>(
                AnnError::DuplicateKey,
            ),
            keys_unique(entry_keys(new_locations@)) ==> (stored_decode(annotation) matches Err(e)
                ==> r == Err::<Self, AnnError>(e)),
            r is Ok <==> (keys_unique(entry_keys(new_locations@)) && (stored_decode(annotation) matches Ok(
                (k, p),
            ) && entry_keys(children@) == k) && stack_cond(children@) && annotation.obs_dim() == Some(
                size_prefix(obs_counts(children@), children@.len() as int) as usize,
            ) && annotation.var_dim() == Some(dim_size(children@[0].1.var_dim()) as usize)),
            r matches Ok(ds) ==> ds.wf() && ds.anndatas_spec().elems_spec() == keyed(children@),
            r matches Ok(ds) ==> (new_locations@.len() == 0 ==> ds.annotation_spec() == annotation),
            r matches Ok(ds) ==> (new_locations@.len() > 0 ==> same_but_locations(
                annotation,
                ds.annotation_spec(),
            ) && (stored_decode(annotation) matches Ok((k, p)) && lookup(
                ds.annotation_spec().uns_spec().entries(),
                "AnnDataSet"@,
            ) matches Some(Data::Table(t)) && table_view(t@) == locations_table(
                k,
                updated_paths(k, p, new_locations@),
            ))),
    {
        if !keys_distinct(new_locations) {
            return Err(AnnError::DuplicateKey);
        }
        let (keys, _paths) = stored_locations(&annotation)?;
        let given = key_list(&children);
        if !strings_eq(&given, &keys) {
            return Err(AnnError::MissingKey);
        }
        let mut annotation = annotation;
        if new_locations.len() > 0 {
            let _ = update_anndata_locations(&mut annotation, new_locations);
        }
        let anndatas = StackedAnnData::new(children)?;
        let n_obs = anndatas.n_obs();
        let n_vars = anndatas.n_vars();
        if annotation.obs_dim_value() != Some(n_obs) || annotation.var_dim_value() != Some(n_vars) {
            return Err(AnnError::DimensionMismatch);
        }
        Ok(AnnDataSet { annotation, anndatas })
    }

    /// The annotation object alone, with the stacked matrix copied into it
    /// when `copy_x` holds and every child has a matrix.
    pub fn into_adata(self, copy_x: bool) -> (r: Result<AnnData, AnnError>)
        requires
            self.wf(),
        ensures
            r matches Ok(a) ==> a.wf() && crate::anndata::extends(self.annotation_spec().obs_dim(), a.obs_dim())
                && crate::anndata::extends(self.annotation_spec().var_dim(), a.var_dim()),
            r matches Ok(a) ==> (copy_x && self.anndatas_spec().x_spec() is Some) ==> (a.x_spec() matches Some(x)
                && x.rows_view() == self.anndatas_spec().x_spec()->0@.0),
            !copy_x || self.anndatas_spec().x_spec() is None ==> r == Ok::<AnnData, AnnError>(
                self.annotation_spec(),
            ),
            copy_x && self.anndatas_spec().x_spec() is Some ==> (r is Ok <==> (
            self.anndatas_spec().x_spec()->0@.0.len() == dim_size(self.annotation_spec().obs_dim())
                && self.anndatas_spec().x_spec()->0@.1 == dim_size(
                self.annotation_spec().var_dim(),
            ))),
            r is Err ==> r == Err::<AnnData, AnnError>(AnnError::DimensionMismatch),
    {
        let AnnDataSet { annotation, anndatas } = self;
        let mut annotation = annotation;
        if copy_x {
            match anndatas.get_x() {
                Some(x) => {
                    proof {
                        anndatas.lemma_x_wf();
                    }
                    let data = x.data();
                    let (n, m) = data.shape();
                    if n != annotation.n_obs() || m != annotation.n_vars() {
                        return Err(AnnError::DimensionMismatch);
                    }
                    let r = annotation.set_x(data);
                    if r.is_err() {
                        return Err(AnnError::DimensionMismatch);
                    }
                },
                None => {},
            }
        }
        Ok(annotation)
    }
}

/// The keys and file paths of the children that a locations table records,
/// or why it records none: a value that is not a table gives
/// `EncodingMismatch`, a missing `keys` or `file_path` column `MissingKey`,
/// columns of different lengths `EncodingMismatch`.
pub open spec fn decode_locations(d: Data) -> Result<(Seq<Seq<char>>, Seq<Seq<char>>), AnnError> {
    match d {
        Data::Table(t) => {
            let tv = table_view(t@);
            match (column_of(tv, "keys"@), column_of(tv, "file_path"@)) {
                (Some(k), Some(p)) => if k.len() == p.len() {
                    Ok((k, p))
                } else {
                    Err(AnnError::EncodingMismatch)
                },
                _ => Err(AnnError::MissingKey),
            }
        },
        _ => Err(AnnError::EncodingMismatch),
    }
}

/// The keys and file paths of the children that the annotation object
/// records under `AnnDataSet`; `MissingKey` when it records none.
pub open spec fn stored_decode(a: AnnData) -> Result<(Seq<Seq<char>>, Seq<Seq<char>>), AnnError> {
    match lookup(a.uns_spec().entries(), "AnnDataSet"@) {
        Some(d) => decode_locations(d),
        None => Err(AnnError::MissingKey),
    }
}

/// The paths `p` of the keys `k` after the overrides `new_locations`.
pub open spec fn updated_paths(
    k: Seq<Seq<char>>,
    p: Seq<Seq<char>>,
    new_locations: Seq<(String, String)>,
) -> Seq<Seq<char>> {
    Seq::new(k.len(), |i: int| match lookup(new_locations, k[i]) {
        Some(q) => q@,
        None => p[i],
    })
}

/// `b` is `a` with only the value under `AnnDataSet` replaced.
pub open spec fn same_but_locations(a: AnnData, b: AnnData) -> bool {
    &&& b.wf()
    &&& b.obs_dim() == a.obs_dim()
    &&& b.var_dim() == a.var_dim()
    &&& b.x_spec() == a.x_spec()
    &&& b.obs_names_spec() == a.obs_names_spec()
    &&& b.var_names_spec() == a.var_names_spec()
    &&& b.obs_spec() == a.obs_spec()
    &&& b.var_spec() == a.var_spec()
    &&& b.obsm_spec() == a.obsm_spec()
    &&& b.obsp_spec() == a.obsp_spec()
    &&& b.varm_spec() == a.varm_spec()
    &&& b.varp_spec() == a.varp_spec()
    &&& forall|k: Seq<char>|
        k != "AnnDataSet"@ ==> lookup(b.uns_spec().entries(), k) == lookup(a.uns_spec().entries(), k)
}

/// The file paths of the children recorded in the annotation object; see
/// `decode_locations`. Fails with `MissingKey` when it records none.
pub fn stored_locations(annotation: &AnnData) -> (r: Result<(Vec<String>, Vec<String>), AnnError>)
    requires
        annotation.wf(),
    ensures
        match stored_decode(*annotation) {
            Ok((k, p)) => r matches Ok((kv, pv)) && strs(kv@) == k && strs(pv@) == p,
            Err(e) => r == Err::<(Vec<String>, Vec<String>), AnnError>(e),
        },
{
    let name = "AnnDataSet".to_owned();
    proof {
        reveal_strlit("AnnDataSet");
    }
    match annotation.fetch_uns(name.as_str()) {
        Some(d) => child_locations(d),
        None => Err(AnnError::MissingKey),
    }
}

/// Records in the annotation object that the children with keys `keys`
/// are stored at `paths`, replacing what it recorded before.
pub fn record_locations(ann: &mut AnnData, keys: Vec<String>, paths: Vec<String>)
    requires
        old(ann).wf(),
    ensures
        final(ann).wf(),
        final(ann).obs_dim() == old(ann).obs_dim(),
        final(ann).var_dim() == old(ann).var_dim(),
        lookup(final(ann).uns_spec().entries(), "AnnDataSet"@) matches Some(Data::Table(t))
            && table_view(t@) == locations_table(strs(keys@), strs(paths@)),
{
    let keys_name = "keys".to_owned();
    let paths_name = "file_path".to_owned();
    let name = "AnnDataSet".to_owned();
    proof {
        reveal_strlit("keys");
        reveal_strlit("file_path");
        reveal_strlit("AnnDataSet");
    }
    let ghost kv = strs(keys@);
    let ghost pv = strs(paths@);
    let table = vec![(keys_name, keys), (paths_name, paths)];
    proof {
        assert(table_view(table@) =~= locations_table(kv, pv));
    }
    ann.add_uns(name.as_str(), Data::Table(table));
}

/// Replaces, in the table of the annotation object, the file path of each
/// key that `new_locations` names by the one given there. Fails as
/// `stored_locations` does, changing nothing.
pub fn update_anndata_locations(ann: &mut AnnData, new_locations: &Vec<(String, String)>) -> (r: Result<(), AnnError>)
    requires
        old(ann).wf(),
        keys_unique(entry_keys(new_locations@)),
    ensures
        final(ann).wf(),
        r is Ok <==> stored_decode(*old(ann)) is Ok,
        stored_decode(*old(ann)) matches Err(e) ==> r == Err::<(), AnnError>(e) && *final(ann)
            == *old(ann),
        stored_decode(*old(ann)) matches Ok((k, p)) ==> same_but_locations(*old(ann), *final(ann))
            && (lookup(final(ann).uns_spec().entries(), "AnnDataSet"@) matches Some(Data::Table(t))
            && table_view(t@) == locations_table(k, updated_paths(k, p, new_locations@))),
{
    let (keys, paths) = stored_locations(ann)?;
    let updated = update_locations(&keys, &paths, new_locations);
    let ghost k = strs(keys@);
    let ghost p = strs(paths@);
    let keys_name = "keys".to_owned();
    let paths_name = "file_path".to_owned();
    let name = "AnnDataSet".to_owned();
    proof {
        reveal_strlit("keys");
        reveal_strlit("file_path");
        reveal_strlit("AnnDataSet");
    }
    let ghost up = strs(updated@);
    let table = vec![(keys_name, keys), (paths_name, updated)];
    proof {
        assert(up =~= updated_paths(k, p, new_locations@));
        assert(table_view(table@) =~= locations_table(k, up));
    }
    ann.add_uns(name.as_str(), Data::Table(table));
    Ok(())
}

impl AnnDataSet {
    /// A description: the sizes and the file of the annotation, the keys of
    /// the children, and the names held by each part of the annotation.
    #[verifier::rlimit(40)]
    pub fn describe(&self, filename: &str) -> (r: String)
        requires
            self.wf(),
        ensures
            r@ == "AnnDataSet object with n_obs x n_vars = "@ + crate::index::dec(
                self.anndatas_spec().n_obs_spec(),
            ) + " x "@ + crate::index::dec(self.anndatas_spec().n_vars_spec()) + " backed at '"@
                + filename@ + "'"@ + (if self.anndatas_spec().elems_spec().len() > 0 {
                "\ncontains "@ + crate::index::dec(self.anndatas_spec().elems_spec().len())
                    + " AnnData objects with keys: "@ + quoted(
                    Seq::new(
                        self.anndatas_spec().elems_spec().len(),
                        |i: int| self.anndatas_spec().elems_spec()[i].0,
                    ),
                )
            } else {
                Seq::empty()
            }) + key_line("obs"@, entry_keys(self.annotation_spec().obs_spec())) + key_line(
                "var"@,
                entry_keys(self.annotation_spec().var_spec()),
            ) + key_line(
                "uns"@,
                entry_keys(self.annotation_spec().uns_spec().entries()),
            ) + key_line("obsm"@, entry_keys(self.annotation_spec().obsm_spec().entries()))
                + key_line("obsp"@, entry_keys(self.annotation_spec().obsp_spec().entries()))
                + key_line("varm"@, entry_keys(self.annotation_spec().varm_spec().entries()))
                + key_line("varp"@, entry_keys(self.annotation_spec().varp_spec().entries())),
    {
        let mut out = "AnnDataSet object with n_obs x n_vars = ".to_owned();
        let n = crate::index::decimal(self.anndatas.n_obs());
        out.append(n.as_str());
        out.append(" x ");
        let m = crate::index::decimal(self.anndatas.n_vars());
        out.append(m.as_str());
        out.append(" backed at '");
        out.append(filename);
        out.append("'");
        let count = self.anndatas.len();
        let ghost head = out@;
        if count > 0 {
            out.append("\ncontains ");
            let c = crate::index::decimal(count);
            out.append(c.as_str());
            out.append(" AnnData objects with keys: ");
            let keys = self.anndatas.keys();
            let q = quote_strings(&keys);
            out.append(q.as_str());
        } else {
            assert(out@ =~= head + Seq::<char>::empty());
        }
        let a = &self.annotation;
        push_key_line(&mut out, "obs", &a.obs_keys());
        push_key_line(&mut out, "var", &a.var_keys());
        push_key_line(&mut out, "uns", &a.uns_keys());
        push_key_line(&mut out, "obsm", &a.obsm_keys());
        push_key_line(&mut out, "obsp", &a.obsp_keys());
        push_key_line(&mut out, "varm", &a.varm_keys());
        push_key_line(&mut out, "varp", &a.varp_keys());
        out
    }
}

impl AnnDataSet {
    /// On the annotation: see `AnnData::set_obs_column`.
    pub fn set_obs_column(&mut self, name: &str, values: Vec<String>) -> (r: Result<(), AnnError>)
        requires
            old(self).wf(),
        ensures
            final(self).wf(),
            final(self).anndatas_spec() == old(self).anndatas_spec(),
            final(self).annotation_spec().var_spec() == old(self).annotation_spec().var_spec(),
            final(self).annotation_spec().uns_spec() == old(self).annotation_spec().uns_spec(),
            final(self).annotation_spec().obs_names_spec() == old(self).annotation_spec().obs_names_spec(),
            final(self).annotation_spec().var_names_spec() == old(self).annotation_spec().var_names_spec(),
            final(self).annotation_spec().x_spec() == old(self).annotation_spec().x_spec(),
            final(self).annotation_spec().obsm_spec() == old(self).annotation_spec().obsm_spec(),
            final(self).annotation_spec().obsp_spec() == old(self).annotation_spec().obsp_spec(),
            final(self).annotation_spec().varm_spec() == old(self).annotation_spec().varm_spec(),
            final(self).annotation_spec().varp_spec() == old(self).annotation_spec().varp_spec(),
            final(self).annotation_spec().wf(),
            final(self).annotation_spec().var_dim() == old(self).annotation_spec().var_dim(),
            (final(self).annotation_spec().obs_dim(), r is Ok) == try_set_spec(
                old(self).annotation_spec().obs_dim(),
                values@.len() as usize,
            ),
            r is Ok ==> lookup(final(self).annotation_spec().obs_spec(), name@) == Some(values),
            r is Ok ==> forall|k: Seq<char>|
                k != name@ ==> lookup(final(self).annotation_spec().obs_spec(), k) == lookup(old(self).annotation_spec().obs_spec(), k),
            r is Err ==> r == Err::<(), AnnError>(AnnError::DimensionMismatch) && final(self).annotation_spec().obs_spec()
                == old(self).annotation_spec().obs_spec(),
    {
        self.annotation.set_obs_column(name, values)
    }

    /// On the annotation: see `AnnData::obs_column`.
    pub fn obs_column(&self, name: &str) -> (r: Option<&Vec<String>>)
        requires
            self.wf(),
        ensures
            match r {
                Some(v) => lookup(self.annotation_spec().obs_spec(), name@) == Some(*v),
                None => lookup(self.annotation_spec().obs_spec(), name@) is None,
            },
    {
        self.annotation.obs_column(name)
    }

    /// On the annotation: see `AnnData::obs_keys`.
    pub fn obs_keys(&self) -> (r: Vec<String>)
        requires
            self.wf(),
        ensures
            strs(r@) == entry_keys(self.annotation_spec().obs_spec()),
    {
        self.annotation.obs_keys()
    }

    /// On the annotation: see `AnnData::del_obs`.
    pub fn del_obs(&mut self)
        requires
            old(self).wf(),
        ensures
            final(self).wf(),
            final(self).anndatas_spec() == old(self).anndatas_spec(),
            final(self).annotation_spec().wf(),
            final(self).annotation_spec().obs_spec().len() == 0,
            final(self).annotation_spec().obs_dim() == old(self).annotation_spec().obs_dim(),
            final(self).annotation_spec().var_dim() == old(self).annotation_spec().var_dim(),
    {
        self.annotation.del_obs()
    }

    /// On the annotation: see `AnnData::set_var_column`.
    pub fn set_var_column(&mut self, name: &str, values: Vec<String>) -> (r: Result<(), AnnError>)
        requires
            old(self).wf(),
        ensures
            final(self).wf(),
            final(self).anndatas_spec() == old(self).anndatas_spec(),
            final(self).annotation_spec().obs_spec() == old(self).annotation_spec().obs_spec(),
            final(self).annotation_spec().uns_spec() == old(self).annotation_spec().uns_spec(),
            final(self).annotation_spec().obs_names_spec() == old(self).annotation_spec().obs_names_spec(),
            final(self).annotation_spec().var_names_spec() == old(self).annotation_spec().var_names_spec(),
            final(self).annotation_spec().x_spec() == old(self).annotation_spec().x_spec(),
            final(self).annotation_spec().obsm_spec() == old(self).annotation_spec().obsm_spec(),
            final(self).annotation_spec().obsp_spec() == old(self).annotation_spec().obsp_spec(),
            final(self).annotation_spec().varm_spec() == old(self).annotation_spec().varm_spec(),
            final(self).annotation_spec().varp_spec() == old(self).annotation_spec().varp_spec(),
            final(self).annotation_spec().wf(),
            final(self).annotation_spec().obs_dim() == old(self).annotation_spec().obs_dim(),
            (final(self).annotation_spec().var_dim(), r is Ok) == try_set_spec(
                old(self).annotation_spec().var_dim(),
                values@.len() as usize,
            ),
            r is Ok ==> lookup(final(self).annotation_spec().var_spec(), name@) == Some(values),
            r is Ok ==> forall|k: Seq<char>|
                k != name@ ==> lookup(final(self).annotation_spec().var_spec(), k) == lookup(old(self).annotation_spec().var_spec(), k),
            r is Err ==> r == Err::<(), AnnError>(AnnError::DimensionMismatch) && final(self).annotation_spec().var_spec()
                == old(self).annotation_spec().var_spec(),
    {
        self.annotation.set_var_column(name, values)
    }

    /// On the annotation: see `AnnData::var_column`.
    pub fn var_column(&self, name: &str) -> (r: Option<&Vec<String>>)
        requires
            self.wf(),
        ensures
            match r {
                Some(v) => lookup(self.annotation_spec().var_spec(), name@) == Some(*v),
                None => lookup(self.annotation_spec().var_spec(), name@) is None,
            },
    {
        self.annotation.var_column(name)
    }

    /// On the annotation: see `AnnData::var_keys`.
    pub fn var_keys(&self) -> (r: Vec<String>)
        requires
            self.wf(),
        ensures
            strs(r@) == entry_keys(self.annotation_spec().var_spec()),
    {
        self.annotation.var_keys()
    }

    /// On the annotation: see `AnnData::del_var`.
    pub fn del_var(&mut self)
        requires
            old(self).wf(),
        ensures
            final(self).wf(),
            final(self).anndatas_spec() == old(self).anndatas_spec(),
            final(self).annotation_spec().wf(),
            final(self).annotation_spec().var_spec().len() == 0,
            final(self).annotation_spec().obs_dim() == old(self).annotation_spec().obs_dim(),
            final(self).annotation_spec().var_dim() == old(self).annotation_spec().var_dim(),
    {
        self.annotation.del_var()
    }

    /// On the annotation: see `AnnData::add_uns`.
    pub fn add_uns(&mut self, key: &str, data: Data)
        requires
            old(self).wf(),
        ensures
            final(self).wf(),
            final(self).anndatas_spec() == old(self).anndatas_spec(),
            final(self).annotation_spec().var_spec() == old(self).annotation_spec().var_spec(),
            final(self).annotation_spec().obs_spec() == old(self).annotation_spec().obs_spec(),
            final(self).annotation_spec().obs_names_spec() == old(self).annotation_spec().obs_names_spec(),
            final(self).annotation_spec().var_names_spec() == old(self).annotation_spec().var_names_spec(),
            final(self).annotation_spec().x_spec() == old(self).annotation_spec().x_spec(),
            final(self).annotation_spec().obsm_spec() == old(self).annotation_spec().obsm_spec(),
            final(self).annotation_spec().obsp_spec() == old(self).annotation_spec().obsp_spec(),
            final(self).annotation_spec().varm_spec() == old(self).annotation_spec().varm_spec(),
            final(self).annotation_spec().varp_spec() == old(self).annotation_spec().varp_spec(),
            final(self).annotation_spec().wf(),
            final(self).annotation_spec().obs_dim() == old(self).annotation_spec().obs_dim(),
            final(self).annotation_spec().var_dim() == old(self).annotation_spec().var_dim(),
            lookup(final(self).annotation_spec().uns_spec().entries(), key@) == Some(data),
            forall|k: Seq<char>|
                k != key@ ==> lookup(final(self).annotation_spec().uns_spec().entries(), k) == lookup(
                    old(self).annotation_spec().uns_spec().entries(),
                    k,
                ),
    {
        self.annotation.add_uns(key, data)
    }

    /// On the annotation: see `AnnData::fetch_uns`.
    pub fn fetch_uns(&self, key: &str) -> (r: Option<&Data>)
        requires
            self.wf(),
        ensures
            match r {
                Some(d) => lookup(self.annotation_spec().uns_spec().entries(), key@) == Some(*d),
                None => lookup(self.annotation_spec().uns_spec().entries(), key@) is None,
            },
    {
        self.annotation.fetch_uns(key)
    }

    /// On the annotation: see `AnnData::del_uns`.
    pub fn del_uns(&mut self)
        requires
            old(self).wf(),
        ensures
            final(self).wf(),
            final(self).anndatas_spec() == old(self).anndatas_spec(),
            final(self).annotation_spec().wf(),
            final(self).annotation_spec().uns_spec().entries().len() == 0,
            final(self).annotation_spec().obs_dim() == old(self).annotation_spec().obs_dim(),
            final(self).annotation_spec().var_dim() == old(self).annotation_spec().var_dim(),
    {
        self.annotation.del_uns()
    }

    /// On the annotation: see `AnnData::uns_keys`.
    pub fn uns_keys(&self) -> (r: Vec<String>)
        requires
            self.wf(),
        ensures
            strs(r@) == entry_keys(self.annotation_spec().uns_spec().entries()),
    {
        self.annotation.uns_keys()
    }

    /// On the annotation: see `AnnData::set_obs_names`.
    pub fn set_obs_names(&mut self, index: DataFrameIndex) -> (r: Result<(), AnnError>)
        requires
            old(self).wf(),
            index@.1.wf(),
        ensures
            final(self).wf(),
            final(self).anndatas_spec() == old(self).anndatas_spec(),
            final(self).annotation_spec().var_spec() == old(self).annotation_spec().var_spec(),
            final(self).annotation_spec().uns_spec() == old(self).annotation_spec().uns_spec(),
            final(self).annotation_spec().obs_spec() == old(self).annotation_spec().obs_spec(),
            final(self).annotation_spec().var_names_spec() == old(self).annotation_spec().var_names_spec(),
            final(self).annotation_spec().x_spec() == old(self).annotation_spec().x_spec(),
            final(self).annotation_spec().obsm_spec() == old(self).annotation_spec().obsm_spec(),
            final(self).annotation_spec().obsp_spec() == old(self).annotation_spec().obsp_spec(),
            final(self).annotation_spec().varm_spec() == old(self).annotation_spec().varm_spec(),
            final(self).annotation_spec().varp_spec() == old(self).annotation_spec().varp_spec(),
            final(self).annotation_spec().wf(),
            final(self).annotation_spec().var_dim() == old(self).annotation_spec().var_dim(),
            (final(self).annotation_spec().obs_dim(), r is Ok) == try_set_spec(
                old(self).annotation_spec().obs_dim(),
                index@.1.names().len() as usize,
            ),
            r is Err ==> r == Err::<(), AnnError>(AnnError::DimensionMismatch)
                && final(self).annotation_spec().obs_names_spec() == old(self).annotation_spec().obs_names_spec(),
            r is Ok ==> final(self).annotation_spec().obs_names_spec() == Some(index),
    {
        self.annotation.set_obs_names(index)
    }

    /// On the annotation: see `AnnData::var_ix`.
    pub fn var_ix(&self, names: &Vec<String>) -> (r: Result<Vec<usize>, AnnError>)
        requires
            self.wf(),
        ensures
            positions_ok(names_of(self.annotation_spec().var_names_spec()), strs(names@), r),
    {
        self.annotation.var_ix(names)
    }

    /// On the annotation: see `AnnData::add_obsm`.
    pub fn add_obsm(&mut self, key: &str, data: ArrayData) -> (r: Result<(), AnnError>)
        requires
            old(self).wf(),
            data.wf(),
        ensures
            final(self).wf(),
            final(self).anndatas_spec() == old(self).anndatas_spec(),
            final(self).annotation_spec().wf(),
            (final(self).annotation_spec().obs_dim(), final(self).annotation_spec().var_dim(), r) == add_outcome(
                Axis::Row,
                data.rows.len(),
                data.ncols,
                old(self).annotation_spec().obs_dim(),
                old(self).annotation_spec().var_dim(),
            ),
            r is Ok ==> lookup(final(self).annotation_spec().obsm_spec().entries(), key@) == Some(data),
            r is Ok ==> forall|k: Seq<char>|
                k != key@ ==> lookup(final(self).annotation_spec().obsm_spec().entries(), k) == lookup(
                    old(self).annotation_spec().obsm_spec().entries(),
                    k,
                ),
            r is Err ==> final(self).annotation_spec().obsm_spec().entries() == old(self).annotation_spec().obsm_spec().entries(),
    {
        self.annotation.add_obsm(key, data)
    }

    /// On the annotation: see `AnnData::fetch_obsm`.
    pub fn fetch_obsm(&self, key: &str) -> (r: Option<&ArrayData>)
        requires
            self.wf(),
        ensures
            match r {
                Some(a) => lookup(self.annotation_spec().obsm_spec().entries(), key@) == Some(*a),
                None => lookup(self.annotation_spec().obsm_spec().entries(), key@) is None,
            },
    {
        self.annotation.fetch_obsm(key)
    }

    /// On the annotation: see `AnnData::del_obsm`.
    pub fn del_obsm(&mut self)
        requires
            old(self).wf(),
        ensures
            final(self).wf(),
            final(self).anndatas_spec() == old(self).anndatas_spec(),
            final(self).annotation_spec().wf(),
            final(self).annotation_spec().obsm_spec().entries().len() == 0,
            final(self).annotation_spec().obs_dim() == old(self).annotation_spec().obs_dim(),
            final(self).annotation_spec().var_dim() == old(self).annotation_spec().var_dim(),
    {
        self.annotation.del_obsm()
    }

    /// On the annotation: see `AnnData::obsm_keys`.
    pub fn obsm_keys(&self) -> (r: Vec<String>)
        requires
            self.wf(),
        ensures
            strs(r@) == entry_keys(self.annotation_spec().obsm_spec().entries()),
    {
        self.annotation.obsm_keys()
    }

    /// On the annotation: see `AnnData::add_obsp`.
    pub fn add_obsp(&mut self, key: &str, data: ArrayData) -> (r: Result<(), AnnError>)
        requires
            old(self).wf(),
            data.wf(),
        ensures
            final(self).wf(),
            final(self).anndatas_spec() == old(self).anndatas_spec(),
            final(self).annotation_spec().wf(),
            (final(self).annotation_spec().obs_dim(), final(self).annotation_spec().var_dim(), r) == add_outcome(
                Axis::Pairwise,
                data.rows.len(),
                data.ncols,
                old(self).annotation_spec().obs_dim(),
                old(self).annotation_spec().var_dim(),
            ),
            r is Ok ==> lookup(final(self).annotation_spec().obsp_spec().entries(), key@) == Some(data),
            r is Ok ==> forall|k: Seq<char>|
                k != key@ ==> lookup(final(self).annotation_spec().obsp_spec().entries(), k) == lookup(
                    old(self).annotation_spec().obsp_spec().entries(),
                    k,
                ),
            r is Err ==> final(self).annotation_spec().obsp_spec().entries() == old(self).annotation_spec().obsp_spec().entries(),
    {
        self.annotation.add_obsp(key, data)
    }

    /// On the annotation: see `AnnData::fetch_obsp`.
    pub fn fetch_obsp(&self, key: &str) -> (r: Option<&ArrayData>)
        requires
            self.wf(),
        ensures
            match r {
                Some(a) => lookup(self.annotation_spec().obsp_spec().entries(), key@) == Some(*a),
                None => lookup(self.annotation_spec().obsp_spec().entries(), key@) is None,
            },
    {
        self.annotation.fetch_obsp(key)
    }

    /// On the annotation: see `AnnData::del_obsp`.
    pub fn del_obsp(&mut self)
        requires
            old(self).wf(),
        ensures
            final(self).wf(),
            final(self).anndatas_spec() == old(self).anndatas_spec(),
            final(self).annotation_spec().wf(),
            final(self).annotation_spec().obsp_spec().entries().len() == 0,
            final(self).annotation_spec().obs_dim() == old(self).annotation_spec().obs_dim(),
            final(self).annotation_spec().var_dim() == old(self).annotation_spec().var_dim(),
    {
        self.annotation.del_obsp()
    }

    /// On the annotation: see `AnnData::obsp_keys`.
    pub fn obsp_keys(&self) -> (r: Vec<String>)
        requires
            self.wf(),
        ensures
            strs(r@) == entry_keys(self.annotation_spec().obsp_spec().entries()),
    {
        self.annotation.obsp_keys()
    }

    /// On the annotation: see `AnnData::add_varm`.
    pub fn add_varm(&mut self, key: &str, data: ArrayData) -> (r: Result<(), AnnError>)
        requires
            old(self).wf(),
            data.wf(),
        ensures
            final(self).wf(),
            final(self).anndatas_spec() == old(self).anndatas_spec(),
            final(self).annotation_spec().wf(),
            (final(self).annotation_spec().var_dim(), final(self).annotation_spec().obs_dim(), r) == add_outcome(
                Axis::Row,
                data.rows.len(),
                data.ncols,
                old(self).annotation_spec().var_dim(),
                old(self).annotation_spec().obs_dim(),
            ),
            r is Ok ==> lookup(final(self).annotation_spec().varm_spec().entries(), key@) == Some(data),
            r is Ok ==> forall|k: Seq<char>|
                k != key@ ==> lookup(final(self).annotation_spec().varm_spec().entries(), k) == lookup(
                    old(self).annotation_spec().varm_spec().entries(),
                    k,
                ),
            r is Err ==> final(self).annotation_spec().varm_spec().entries() == old(self).annotation_spec().varm_spec().entries(),
    {
        self.annotation.add_varm(key, data)
    }

    /// On the annotation: see `AnnData::fetch_varm`.
    pub fn fetch_varm(&self, key: &str) -> (r: Option<&ArrayData>)
        requires
            self.wf(),
        ensures
            match r {
                Some(a) => lookup(self.annotation_spec().varm_spec().entries(), key@) == Some(*a),
                None => lookup(self.annotation_spec().varm_spec().entries(), key@) is None,
            },
    {
        self.annotation.fetch_varm(key)
    }

    /// On the annotation: see `AnnData::del_varm`.
    pub fn del_varm(&mut self)
        requires
            old(self).wf(),
        ensures
            final(self).wf(),
            final(self).anndatas_spec() == old(self).anndatas_spec(),
            final(self).annotation_spec().wf(),
            final(self).annotation_spec().varm_spec().entries().len() == 0,
            final(self).annotation_spec().obs_dim() == old(self).annotation_spec().obs_dim(),
            final(self).annotation_spec().var_dim() == old(self).annotation_spec().var_dim(),
    {
        self.annotation.del_varm()
    }

    /// On the annotation: see `AnnData::varm_keys`.
    pub fn varm_keys(&self) -> (r: Vec<String>)
        requires
            self.wf(),
        ensures
            strs(r@) == entry_keys(self.annotation_spec().varm_spec().entries()),
    {
        self.annotation.varm_keys()
    }

    /// On the annotation: see `AnnData::add_varp`.
    pub fn add_varp(&mut self, key: &str, data: ArrayData) -> (r: Result<(), AnnError>)
        requires
            old(self).wf(),
            data.wf(),
        ensures
            final(self).wf(),
            final(self).anndatas_spec() == old(self).anndatas_spec(),
            final(self).annotation_spec().wf(),
            (final(self).annotation_spec().var_dim(), final(self).annotation_spec().obs_dim(), r) == add_outcome(
                Axis::Pairwise,
                data.rows.len(),
                data.ncols,
                old(self).annotation_spec().var_dim(),
                old(self).annotation_spec().obs_dim(),
            ),
            r is Ok ==> lookup(final(self).annotation_spec().varp_spec().entries(), key@) == Some(data),
            r is Ok ==> forall|k: Seq<char>|
                k != key@ ==> lookup(final(self).annotation_spec().varp_spec().entries(), k) == lookup(
                    old(self).annotation_spec().varp_spec().entries(),
                    k,
                ),
            r is Err ==> final(self).annotation_spec().varp_spec().entries() == old(self).annotation_spec().varp_spec().entries(),
    {
        self.annotation.add_varp(key, data)
    }

    /// On the annotation: see `AnnData::fetch_varp`.
    pub fn fetch_varp(&self, key: &str) -> (r: Option<&ArrayData>)
        requires
            self.wf(),
        ensures
            match r {
                Some(a) => lookup(self.annotation_spec().varp_spec().entries(), key@) == Some(*a),
                None => lookup(self.annotation_spec().varp_spec().entries(), key@) is None,
            },
    {
        self.annotation.fetch_varp(key)
    }

    /// On the annotation: see `AnnData::del_varp`.
    pub fn del_varp(&mut self)
        requires
            old(self).wf(),
        ensures
            final(self).wf(),
            final(self).anndatas_spec() == old(self).anndatas_spec(),
            final(self).annotation_spec().wf(),
            final(self).annotation_spec().varp_spec().entries().len() == 0,
            final(self).annotation_spec().obs_dim() == old(self).annotation_spec().obs_dim(),
            final(self).annotation_spec().var_dim() == old(self).annotation_spec().var_dim(),
    {
        self.annotation.del_varp()
    }

    /// On the annotation: see `AnnData::varp_keys`.
    pub fn varp_keys(&self) -> (r: Vec<String>)
        requires
            self.wf(),
        ensures
            strs(r@) == entry_keys(self.annotation_spec().varp_spec().entries()),
    {
        self.annotation.varp_keys()
    }
}

impl StackedAnnData {
    /// A description: the names of the stacked arrays aligned with the
    /// observations.
    pub fn describe(&self) -> (r: String)
        ensures
            r@ == "Stacked AnnData objects:"@ + "\n    obsm: "@ + quoted(entry_keys(self.obsm_spec().entries())),
    {
        let mut out = "Stacked AnnData objects:".to_owned();
        out.append("\n    obsm: ");
        let keys = self.obsm.keys();
        let q = quote_strings(&keys);
        out.append(q.as_str());
        out
    }

    pub closed spec fn obsm_spec(&self) -> StackedAxisArrays {
        self.obsm
    }

    proof fn lemma_x_wf(&self)
        requires
            self.wf(),
        ensures
            self.x_spec() matches Some(x) ==> x.wf(),
    {
    }
}

proof fn lemma_labels_len(children: Seq<(String, AnnData)>, k: int)
    requires
        0 <= k <= children.len(),
    ensures
        batch_labels(children, k).len() == size_prefix(obs_counts(children), k),
    decreases k,
{
    if k > 0 {
        lemma_labels_len(children, k - 1);
    }
}

/// The file paths of the children after the overrides: the path of a key
/// that `new_locations` names is replaced by the one given there.
pub fn update_locations(keys: &Vec<String>, paths: &Vec<String>, new_locations: &Vec<(String, String)>) -> (r: Vec<String>)
    requires
        keys@.len() == paths@.len(),
        keys_unique(entry_keys(new_locations@)),
    ensures
        r@.len() == keys@.len(),
        forall|i: int|
            0 <= i < keys@.len() ==> (#[trigger] r@[i])@ == match lookup(new_locations@, keys@[i]@) {
                Some(p) => p@,
                None => paths@[i]@,
            },
{
    let mut out: Vec<String> = Vec::new();
    let mut i: usize = 0;
    while i < keys.len()
        invariant
            keys@.len() == paths@.len(),
            keys_unique(entry_keys(new_locations@)),
            i <= keys@.len(),
            out@.len() == i,
            forall|t: int|
                0 <= t < i ==> (#[trigger] out@[t])@ == match lookup(new_locations@, keys@[t]@) {
                    Some(p) => p@,
                    None => paths@[t]@,
                },
        decreases keys@.len() - i,
    {
        match find_key(new_locations, &keys[i]) {
            Some(j) => {
                proof {
                    crate::collection::lemma_entry_lookup(new_locations@, j as int);
                }
                out.push(new_locations[j].1.clone());
            },
            None => {
                out.push(paths[i].clone());
            },
        }
        i = i + 1;
    }
    out
}

/// The keys and file paths of the children, read from the table stored
/// under `AnnDataSet`; see `decode_locations`.
pub fn child_locations(table: &Data) -> (r: Result<(Vec<String>, Vec<String>), AnnError>)
    ensures
        match decode_locations(*table) {
            Ok((k, p)) => r matches Ok((kv, pv)) && strs(kv@) == k && strs(pv@) == p,
            Err(e) => r == Err::<(Vec<String>, Vec<String>), AnnError>(e),
        },
{
    match table {
        Data::Table(t) => {
            let keys_name = "keys".to_owned();
            let paths_name = "file_path".to_owned();
            proof {
                reveal_strlit("keys");
                reveal_strlit("file_path");
            }
            let kpos = find_key(t, &keys_name);
            let ppos = find_key(t, &paths_name);
            proof {
                match kpos {
                    Some(i) => lemma_column_of_first(t@, keys_name@, i as int),
                    None => lemma_column_of_first(t@, keys_name@, t@.len() as int),
                }
                match ppos {
                    Some(i) => lemma_column_of_first(t@, paths_name@, i as int),
                    None => lemma_column_of_first(t@, paths_name@, t@.len() as int),
                }
            }
            match (kpos, ppos) {
                (Some(i), Some(j)) => {
                    if t[i].1.len() != t[j].1.len() {
                        proof {
                            assert(strs(t@[i as int].1@).len() != strs(t@[j as int].1@).len());
                        }
                        return Err(AnnError::EncodingMismatch);
                    }
                    Ok((copy_strings(&t[i].1), copy_strings(&t[j].1)))
                },
                _ => Err(AnnError::MissingKey),
            }
        },
        _ => Err(AnnError::EncodingMismatch),
    }
}

} // verus!
