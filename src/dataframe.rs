use vstd::prelude::*;

use crate::error::AnnError;
use crate::index::{copy_strings, intervals_wf, pick_names, strs, Index, IndexModel, Interval};
use crate::selection::SelectInfoElem;

verus! {

pub open spec fn list_tag() -> Seq<char> {
    seq!['l', 'i', 's', 't']
}

pub open spec fn intervals_tag() -> Seq<char> {
    seq!['i', 'n', 't', 'e', 'r', 'v', 'a', 'l', 's']
}

pub open spec fn range_tag() -> Seq<char> {
    seq!['r', 'a', 'n', 'g', 'e']
}

pub open spec fn default_index_name() -> Seq<char> {
    seq!['i', 'n', 'd', 'e', 'x']
}

/// What storage holds for a frame index: the name of the index dataset, the
/// row names stored in it, and the dataset's attributes.
#[derive(Debug)]
pub struct IndexRecord {
    pub index_name: String,
    pub values: Vec<String>,
    /// The `index_type` attribute; when it is absent the index is a list.
    pub index_type: Option<String>,
    /// The `names` attribute of an interval index.
    pub names: Option<Vec<String>>,
    /// The `intervals` attribute of an interval index.
    pub intervals: Option<Vec<Interval>>,
    /// The `start` and `end` attributes of a range index.
    pub start: Option<usize>,
    pub end: Option<usize>,
}

pub struct RecordModel {
    pub index_name: Seq<char>,
    pub values: Seq<Seq<char>>,
    pub index_type: Option<Seq<char>>,
    pub names: Option<Seq<Seq<char>>>,
    pub intervals: Option<Seq<Interval>>,
    pub start: Option<usize>,
    pub end: Option<usize>,
}

impl View for IndexRecord {
    type V = RecordModel;

    open spec fn view(&self) -> RecordModel {
        RecordModel {
            index_name: self.index_name@,
            values: strs(self.values@),
            index_type: match &self.index_type {
                Some(t) => Some(t@),
                None => None,
            },
            names: match &self.names {
                Some(v) => Some(strs(v@)),
                None => None,
            },
            intervals: match &self.intervals {
                Some(v) => Some(v@),
                None => None,
            },
            start: self.start,
            end: self.end,
        }
    }
}

/// The record written for an index named `x.0` with content `x.1`.
/// `stored` tells whether storage accepted the attributes of an interval
/// index; when it did not, the index is written as a list of its names.
pub open spec fn encode_index(x: (Seq<char>, IndexModel), stored: bool) -> RecordModel {
    let plain = RecordModel {
        index_name: x.0,
        values: x.1.names(),
        index_type: Some(list_tag()),
        names: None,
        intervals: None,
        start: None,
        end: None,
    };
    match x.1 {
        IndexModel::List(_) => plain,
        IndexModel::Intervals(ivs) => if stored {
            RecordModel {
                index_type: Some(intervals_tag()),
                names: Some(Seq::new(ivs.len(), |i: int| ivs[i].0)),
                intervals: Some(Seq::new(ivs.len(), |i: int| ivs[i].1)),
                ..plain
            }
        } else {
            plain
        },
        IndexModel::Range(s, e) => RecordModel {
            index_type: Some(range_tag()),
            start: Some(s),
            end: Some(e),
            ..plain
        },
    }
}

/// The index that a record describes, or why it describes none.
pub open spec fn decode_index(rec: RecordModel) -> Result<(Seq<char>, IndexModel), AnnError> {
    let list = Ok((rec.index_name, IndexModel::List(rec.values)));
    match rec.index_type {
        None => list,
        Some(t) => if t == list_tag() {
            list
        } else if t == intervals_tag() {
            match (rec.names, rec.intervals) {
                (Some(k), Some(iv)) => if k.len() == iv.len() && IndexModel::Intervals(
                    Seq::new(k.len(), |i: int| (k[i], iv[i])),
                ).wf() {
                    Ok((rec.index_name, IndexModel::Intervals(Seq::new(k.len(), |i: int| (k[i], iv[i])))))
                } else {
                    Err(AnnError::EncodingMismatch)
                },
                _ => Err(AnnError::MissingKey),
            }
        } else if t == range_tag() {
            match (rec.start, rec.end) {
                (Some(s), Some(e)) => Ok((rec.index_name, IndexModel::Range(s, e))),
                _ => Err(AnnError::MissingKey),
            }
        } else {
            Err(AnnError::EncodingMismatch)
        },
    }
}

/// Writing an index and reading it back gives the same index; an interval
/// index whose attributes storage refused comes back as the list of its
/// names.
pub proof fn lemma_index_round_trip(x: (Seq<char>, IndexModel), stored: bool)
    requires
        x.1.wf(),
    ensures
        decode_index(encode_index(x, stored)) == if x.1 is Intervals && !stored {
            Ok((x.0, IndexModel::List(x.1.names())))
        } else {
            Ok::<(Seq<char>, IndexModel), AnnError>(x)
        },
        decode_index(encode_index(x, stored)) matches Ok(y) && y.0 == x.0 && y.1.names()
            == x.1.names(),
{
    assert(list_tag().len() != intervals_tag().len());
    assert(list_tag().len() != range_tag().len());
    match x.1 {
        IndexModel::Intervals(ivs) => {
            if stored {
                let k = Seq::new(ivs.len(), |i: int| ivs[i].0);
                let iv = Seq::new(ivs.len(), |i: int| ivs[i].1);
                assert(Seq::new(k.len(), |i: int| (k[i], iv[i])) =~= ivs);
            }
        },
        _ => {},
    }
}

/// The row index of a frame: a name and the row names.
#[derive(Debug)]
pub struct DataFrameIndex {
    pub index_name: String,
    index: Index,
}

impl View for DataFrameIndex {
    type V = (Seq<char>, IndexModel);

    closed spec fn view(&self) -> (Seq<char>, IndexModel) {
        (self.index_name@, self.index@)
    }
}

/// Whether two indices hold the same rows in the same form.
fn index_eq(a: &Index, b: &Index) -> (r: bool)
    ensures
        r == (a@ == b@),
{
    match (a, b) {
        (Index::List(x), Index::List(y)) => {
            let r = crate::dataset::strings_eq(x, y);
            proof {
                if strs(x@) == strs(y@) {
                    assert(a@ == b@);
                }
            }
            r
        },
        (Index::Range { start: s1, end: e1 }, Index::Range { start: s2, end: e2 }) => *s1 == *s2
            && *e1 == *e2,
        (Index::Intervals(x), Index::Intervals(y)) => {
            let ghost mx = a@->Intervals_0;
            let ghost my = b@->Intervals_0;
            if x.len() != y.len() {
                assert(mx.len() != my.len());
                return false;
            }
            let mut i: usize = 0;
            while i < x.len()
                invariant
                    a@ == IndexModel::Intervals(mx),
                    b@ == IndexModel::Intervals(my),
                    x@.len() == y@.len(),
                    mx == Seq::new(x@.len(), |t: int| (x@[t].0@, x@[t].1)),
                    my == Seq::new(y@.len(), |t: int| (y@[t].0@, y@[t].1)),
                    i <= x@.len(),
                    forall|t: int| 0 <= t < i ==> mx[t] == my[t],
                decreases x@.len() - i,
            {
                if !x[i].0.eq(&y[i].0) || x[i].1 != y[i].1 {
                    assert(mx[i as int] != my[i as int]);
                    return false;
                }
                i = i + 1;
            }
            assert(mx =~= my);
            true
        },
        _ => false,
    }
}

impl PartialEq for DataFrameIndex {
    /// Two frame indices are equal when they hold the same rows in the same
    /// form, whatever their names.
    fn eq(&self, other: &DataFrameIndex) -> (r: bool)
        ensures
            r == (self@.1 == other@.1),
    {
        index_eq(&self.index, &other.index)
    }
}

impl vstd::std_specs::cmp::PartialEqSpecImpl for DataFrameIndex {
    open spec fn obeys_eq_spec() -> bool {
        true
    }

    open spec fn eq_spec(&self, other: &DataFrameIndex) -> bool {
        self@.1 == other@.1
    }
}

fn default_name() -> (r: String)
    ensures
        r@ == default_index_name(),
{
    let s = "index".to_owned();
    proof {
        reveal_strlit("index");
    }
    s
}

fn tag_string(which: u8) -> (r: String)
    ensures
        which == 0 ==> r@ == list_tag(),
        which == 1 ==> r@ == intervals_tag(),
        which >= 2 ==> r@ == range_tag(),
{
    if which == 0 {
        let s = "list".to_owned();
        proof {
            reveal_strlit("list");
        }
        s
    } else if which == 1 {
        let s = "intervals".to_owned();
        proof {
            reveal_strlit("intervals");
        }
        s
    } else {
        let s = "range".to_owned();
        proof {
            reveal_strlit("range");
        }
        s
    }
}

impl DataFrameIndex {
    /// The number of rows of an index fits in `usize`.
    pub proof fn lemma_len_bounded(&self)
        requires
            self@.1.wf(),
        ensures
            self@.1.names().len() <= usize::MAX,
    {
        match &self.index {
            Index::List(v) => {
                assert(v@.len() == v.len());
            },
            _ => {},
        }
    }

    /// An index named `index` with no rows.
    pub fn empty() -> (r: Self)
        ensures
            r@ == (default_index_name(), IndexModel::List(Seq::empty())),
            r@.1.wf(),
    {
        DataFrameIndex { index_name: default_name(), index: Index::empty() }
    }

    /// An index named `index` holding the given names.
    pub fn from_names(names: Vec<String>) -> (r: Self)
        ensures
            r@ == (default_index_name(), IndexModel::List(strs(names@))),
            r@.1.wf(),
    {
        DataFrameIndex { index_name: default_name(), index: Index::List(names) }
    }

    /// An index named `index` over the row numbers `start..end`.
    pub fn from_range(start: usize, end: usize) -> (r: Self)
        ensures
            r@ == (default_index_name(), IndexModel::Range(start, end)),
            r@.1.wf(),
    {
        DataFrameIndex { index_name: default_name(), index: Index::Range { start, end } }
    }

    /// An index named `index` made of runs of bins.
    pub fn from_intervals(intervals: Vec<(String, Interval)>) -> (r: Self)
        requires
            IndexModel::Intervals(
                Seq::new(intervals@.len(), |t: int| (intervals@[t].0@, intervals@[t].1)),
            ).wf(),
        ensures
            r@ == (default_index_name(), IndexModel::Intervals(
                Seq::new(intervals@.len(), |t: int| (intervals@[t].0@, intervals@[t].1)),
            )),
            r@.1.wf(),
    {
        DataFrameIndex { index_name: default_name(), index: Index::Intervals(intervals) }
    }

    pub fn is_empty(&self) -> (r: bool)
        requires
            self@.1.wf(),
        ensures
            r == (self@.1.names().len() == 0),
    {
        self.index.len() == 0
    }

    /// Number of rows.
    pub fn len(&self) -> (r: usize)
        requires
            self@.1.wf(),
        ensures
            r == self@.1.names().len(),
    {
        self.index.len()
    }

    /// Position of the first row named `k`.
    pub fn get_index(&self, k: &str) -> (r: Option<usize>)
        requires
            self@.1.wf(),
        ensures
            match r {
                Some(i) => i < self@.1.names().len() && self@.1.names()[i as int] == k@ && forall|
                    j: int,
                | 0 <= j < i ==> self@.1.names()[j] != k@,
                None => forall|j: int|
                    0 <= j < self@.1.names().len() ==> self@.1.names()[j] != k@,
            },
    {
        let names = self.index.names_vec();
        let key = k.to_owned();
        let mut i: usize = 0;
        while i < names.len()
            invariant
                strs(names@) == self@.1.names(),
                key@ == k@,
                i <= names@.len(),
                forall|j: int| 0 <= j < i ==> self@.1.names()[j] != k@,
            decreases names@.len() - i,
        {
            assert(names@[i as int]@ == self@.1.names()[i as int]);
            if names[i].eq(&key) {
                return Some(i);
            }
            i = i + 1;
        }
        None
    }

    /// A copy of the row names, in order.
    pub fn to_vec(&self) -> (r: Vec<String>)
        requires
            self@.1.wf(),
        ensures
            strs(r@) == self@.1.names(),
    {
        self.index.names_vec()
    }

    /// The row names, in order.
    pub fn into_vec(self) -> (r: Vec<String>)
        requires
            self@.1.wf(),
        ensures
            strs(r@) == self@.1.names(),
    {
        self.index.names_vec()
    }

    /// The index of the rows picked by `select`, under the same name. The
    /// full selection gives the index back unchanged.
    pub fn select(&self, select: &SelectInfoElem) -> (r: Self)
        requires
            self@.1.wf(),
            select.valid(self@.1.names().len()),
        ensures
            r@.1.wf(),
            r@.0 == self@.0,
            r@.1.names() == pick_names(self@.1.names(), select.indices(self@.1.names().len())),
            select.spec_is_full() ==> r@ == self@,
    {
        let index = self.index.select(select);
        DataFrameIndex { index_name: self.index_name.clone(), index }
    }

    /// What storage receives for this index. `intervals_stored` tells whether
    /// storage accepted the attributes of an interval index.
    pub fn to_record(&self, intervals_stored: bool) -> (r: IndexRecord)
        requires
            self@.1.wf(),
        ensures
            r@ == encode_index(self@, intervals_stored),
    {
        let values = self.index.names_vec();
        let name = self.index_name.clone();
        match &self.index {
            Index::Intervals(v) => {
                if intervals_stored {
                    let mut keys: Vec<String> = Vec::new();
                    let mut ivs: Vec<Interval> = Vec::new();
                    let mut i: usize = 0;
                    while i < v.len()
                        invariant
                            i <= v@.len(),
                            keys@.len() == i,
                            ivs@.len() == i,
                            forall|t: int| 0 <= t < i ==> (#[trigger] keys@[t])@ == v@[t].0@,
                            forall|t: int| 0 <= t < i ==> #[trigger] ivs@[t] == v@[t].1,
                        decreases v@.len() - i,
                    {
                        keys.push(v[i].0.clone());
                        ivs.push(v[i].1);
                        i = i + 1;
                    }
                    let r = IndexRecord {
                        index_name: name,
                        values,
                        index_type: Some(tag_string(1)),
                        names: Some(keys),
                        intervals: Some(ivs),
                        start: None,
                        end: None,
                    };
                    proof {
                        let m = self@.1->Intervals_0;
                        assert(strs(keys@) =~= Seq::new(m.len(), |t: int| m[t].0));
                        assert(ivs@ =~= Seq::new(m.len(), |t: int| m[t].1));
                    }
                    return r;
                }
            },
            Index::Range { start, end } => {
                return IndexRecord {
                    index_name: name,
                    values,
                    index_type: Some(tag_string(2)),
                    names: None,
                    intervals: None,
                    start: Some(*start),
                    end: Some(*end),
                };
            },
            Index::List(_) => {},
        }
        IndexRecord {
            index_name: name,
            values,
            index_type: Some(tag_string(0)),
            names: None,
            intervals: None,
            start: None,
            end: None,
        }
    }

    /// Reads an index back from what storage holds. An absent `index_type`
    /// means a list. A missing attribute gives `MissingKey`; an unknown index
    /// type or inconsistent interval attributes give `EncodingMismatch`.
    pub fn from_record(rec: &IndexRecord) -> (r: Result<Self, AnnError>)
        ensures
            match decode_index(rec@) {
                Ok(x) => r matches Ok(d) && d@ == x && d@.1.wf(),
                Err(e) => r == Err::<Self, AnnError>(e),
            },
    {
        let name = rec.index_name.clone();
        let list = tag_string(0);
        let intervals = tag_string(1);
        let range = tag_string(2);
        let is_list = match &rec.index_type {
            None => true,
            Some(t) => t.eq(&list),
        };
        if is_list {
            return Ok(DataFrameIndex { index_name: name, index: Index::List(copy_strings(&rec.values)) });
        }
        let t = match &rec.index_type {
            Some(t) => t,
            None => {
                return Err(AnnError::EncodingMismatch);
            },
        };
        if t.eq(&intervals) {
            match (&rec.names, &rec.intervals) {
                (Some(k), Some(iv)) => {
                    if k.len() != iv.len() {
                        return Err(AnnError::EncodingMismatch);
                    }
                    let mut v: Vec<(String, Interval)> = Vec::new();
                    let mut i: usize = 0;
                    while i < k.len()
                        invariant
                            k@.len() == iv@.len(),
                            i <= k@.len(),
                            v@.len() == i,
                            forall|t: int|
                                0 <= t < i ==> (#[trigger] v@[t]).0@ == k@[t]@ && v@[t].1
                                    == iv@[t],
                        decreases k@.len() - i,
                    {
                        v.push((k[i].clone(), iv[i]));
                        i = i + 1;
                    }
                    let ghost model = Seq::new(v@.len(), |t: int| (v@[t].0@, v@[t].1));
                    proof {
                        let ks = strs(k@);
                        assert(model =~= Seq::new(ks.len(), |t: int| (ks[t], iv@[t])));
                    }
                    if !intervals_wf(&v) {
                        return Err(AnnError::EncodingMismatch);
                    }
                    Ok(DataFrameIndex { index_name: name, index: Index::Intervals(v) })
                },
                _ => Err(AnnError::MissingKey),
            }
        } else if t.eq(&range) {
            match (rec.start, rec.end) {
                (Some(s), Some(e)) => Ok(
                    DataFrameIndex { index_name: name, index: Index::Range { start: s, end: e } },
                ),
                _ => Err(AnnError::MissingKey),
            }
        } else {
            Err(AnnError::EncodingMismatch)
        }
    }
}

} // verus!
