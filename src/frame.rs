use vstd::prelude::*;

use crate::collection::{copy_table, entry_keys, find_key, key_list, keys_unique, table_view};
use crate::dataframe::{default_index_name, encode_index, DataFrameIndex, IndexRecord};
use crate::error::AnnError;
use crate::index::{copy_strings, pick_names, strs, IndexModel};
use crate::selection::SelectInfoElem;

verus! {

/// A frame of string columns as storage holds it: its encoding, the record
/// of its row index, the order of its columns and the columns themselves.
#[derive(Debug)]
pub struct FrameRecord {
    pub encoding_type: String,
    pub encoding_version: String,
    pub index: IndexRecord,
    pub column_order: Vec<String>,
    pub columns: Vec<(String, Vec<String>)>,
}

/// The values of the first column named `name`, if any.
pub open spec fn column_of(cols: Seq<(Seq<char>, Seq<Seq<char>>)>, name: Seq<char>) -> Option<
    Seq<Seq<char>>,
>
    decreases cols.len(),
{
    if cols.len() == 0 {
        None
    } else if cols[0].0 == name {
        Some(cols[0].1)
    } else {
        column_of(cols.drop_first(), name)
    }
}

/// The columns that a stored frame describes, in its column order, or why
/// it describes none.
pub open spec fn decode_frame(
    encoding: Seq<char>,
    order: Seq<Seq<char>>,
    cols: Seq<(Seq<char>, Seq<Seq<char>>)>,
) -> Result<Seq<(Seq<char>, Seq<Seq<char>>)>, AnnError> {
    if encoding != "dataframe"@ {
        Err(AnnError::EncodingMismatch)
    } else if forall|i: int| 0 <= i < order.len() ==> column_of(cols, #[trigger] order[i]) is Some {
        Ok(Seq::new(order.len(), |i: int| (order[i], column_of(cols, order[i])->0)))
    } else {
        Err(AnnError::MissingKey)
    }
}

/// The number of rows of a frame: that of its first column.
pub open spec fn frame_height(cols: Seq<(String, Vec<String>)>) -> nat {
    if cols.len() == 0 {
        0
    } else {
        cols[0].1@.len()
    }
}

/// Writing a frame whose columns have distinct names and reading it back
/// gives the same columns in the same order.
pub proof fn lemma_frame_round_trip(t: Seq<(Seq<char>, Seq<Seq<char>>)>)
    requires
        forall|i: int, j: int| 0 <= i < j < t.len() ==> t[i].0 != t[j].0,
    ensures
        decode_frame("dataframe"@, Seq::new(t.len(), |i: int| t[i].0), t) == Ok::<
            Seq<(Seq<char>, Seq<Seq<char>>)>,
            AnnError,
        >(t),
{
    let order = Seq::new(t.len(), |i: int| t[i].0);
    assert forall|i: int| 0 <= i < order.len() implies column_of(t, #[trigger] order[i]) == Some(
        t[i].1,
    ) by {
        lemma_column_of_at(t, i);
    }
    assert(Seq::new(order.len(), |i: int| (order[i], column_of(t, order[i])->0)) =~= t);
}

proof fn lemma_column_of_at(t: Seq<(Seq<char>, Seq<Seq<char>>)>, i: int)
    requires
        forall|a: int, b: int| 0 <= a < b < t.len() ==> t[a].0 != t[b].0,
        0 <= i < t.len(),
    ensures
        column_of(t, t[i].0) == Some(t[i].1),
    decreases t.len(),
{
    if i > 0 {
        assert(t[0].0 != t[i].0);
        let rest = t.drop_first();
        assert forall|a: int, b: int| 0 <= a < b < rest.len() implies rest[a].0 != rest[b].0 by {
            assert(rest[a] == t[a + 1] && rest[b] == t[b + 1]);
        }
        lemma_column_of_at(rest, i - 1);
        assert(rest[i - 1] == t[i]);
    }
}

pub proof fn lemma_column_of_first(t: Seq<(String, Vec<String>)>, name: Seq<char>, k: int)
    requires
        0 <= k <= t.len(),
        forall|j: int| 0 <= j < k ==> t[j].0@ != name,
        k < t.len() ==> t[k].0@ == name,
    ensures
        column_of(table_view(t), name) == if k < t.len() {
            Some(strs(t[k].1@))
        } else {
            None::<Seq<Seq<char>>>
        },
    decreases k,
{
    let v = table_view(t);
    if t.len() > 0 {
        let rest = t.drop_first();
        assert(table_view(rest) =~= v.drop_first());
        if k > 0 {
            assert(v[0].0 != name);
            assert forall|j: int| 0 <= j < k - 1 implies rest[j].0@ != name by {
                assert(rest[j] == t[j + 1]);
            }
            if k < t.len() {
                assert(rest[k - 1] == t[k]);
            }
            lemma_column_of_first(rest, name, k - 1);
        }
    }
}

fn dataframe_tag() -> (r: String)
    ensures
        r@ == "dataframe"@,
{
    "dataframe".to_owned()
}

/// The stored form of a frame of string columns with distinct names and
/// equal lengths: encoding `dataframe`, version `0.2.0`, the columns in
/// their order, and a range index over the rows.
pub fn write_frame(columns: &Vec<(String, Vec<String>)>) -> (r: FrameRecord)
    requires
        keys_unique(entry_keys(columns@)),
    ensures
        r.encoding_type@ == "dataframe"@,
        r.encoding_version@ == "0.2.0"@,
        strs(r.column_order@) == entry_keys(columns@),
        table_view(r.columns@) == table_view(columns@),
        r.index@ == encode_index(
            (default_index_name(), IndexModel::Range(0, frame_height(columns@) as usize)),
            true,
        ),
{
    let height = if columns.len() == 0 {
        0
    } else {
        columns[0].1.len()
    };
    let index = DataFrameIndex::from_range(0, height).to_record(true);
    FrameRecord {
        encoding_type: dataframe_tag(),
        encoding_version: "0.2.0".to_owned(),
        index,
        column_order: key_list(columns),
        columns: copy_table(columns),
    }
}

/// The columns of a stored frame, in its column order. An encoding other
/// than `dataframe` gives `EncodingMismatch`; a name of the column order
/// that no column has gives `MissingKey`.
pub fn read_frame(rec: &FrameRecord) -> (r: Result<Vec<(String, Vec<String>)>, AnnError>)
    ensures
        match decode_frame(rec.encoding_type@, strs(rec.column_order@), table_view(rec.columns@)) {
            Ok(t) => r matches Ok(cols) && table_view(cols@) == t,
            Err(e) => r == Err::<Vec<(String, Vec<String>)>, AnnError>(e),
        },
{
    let tag = dataframe_tag();
    if !rec.encoding_type.eq(&tag) {
        return Err(AnnError::EncodingMismatch);
    }
    let ghost order = strs(rec.column_order@);
    let ghost cols = table_view(rec.columns@);
    let mut out: Vec<(String, Vec<String>)> = Vec::new();
    let mut i: usize = 0;
    while i < rec.column_order.len()
        invariant
            rec.encoding_type@ == "dataframe"@,
            order == strs(rec.column_order@),
            cols == table_view(rec.columns@),
            i <= order.len(),
            out@.len() == i,
            forall|t: int| 0 <= t < i ==> column_of(cols, #[trigger] order[t]) is Some,
            forall|t: int|
                0 <= t < i ==> (#[trigger] out@[t]).0@ == order[t] && strs(out@[t].1@) == column_of(
                    cols,
                    order[t],
                )->0,
        decreases order.len() - i,
    {
        let name = &rec.column_order[i];
        match find_key(&rec.columns, name) {
            Some(j) => {
                proof {
                    lemma_column_of_first(rec.columns@, name@, j as int);
                }
                out.push((name.clone(), copy_strings(&rec.columns[j].1)));
            },
            None => {
                proof {
                    lemma_column_of_first(rec.columns@, name@, rec.columns@.len() as int);
                    assert(column_of(cols, order[i as int]) is None);
                    assert(!(forall|t: int| 0 <= t < order.len() ==> column_of(cols, #[trigger] order[t]) is Some));
                    assert(rec.encoding_type@ == "dataframe"@);
                }
                return Err(AnnError::MissingKey);
            },
        }
        i = i + 1;
    }
    assert(table_view(out@) =~= Seq::new(order.len(), |t: int| (order[t], column_of(cols, order[t])->0)));
    Ok(out)
}

/// Every column has the height of the first.
pub open spec fn frame_wf(cols: Seq<(String, Vec<String>)>) -> bool {
    forall|i: int| 0 <= i < cols.len() ==> (#[trigger] cols[i]).1@.len() == frame_height(cols)
}

/// The number of rows and of columns that a stored frame records: the
/// length of its index and of its column order.
pub fn frame_shape(rec: &FrameRecord) -> (r: (usize, usize))
    ensures
        r.0 == rec.index.values@.len(),
        r.1 == rec.column_order@.len(),
{
    (rec.index.values.len(), rec.column_order.len())
}

/// The rows picked by `sel[0]` of the columns picked by `sel[1]`. Fails
/// with `SelectionError` when the selection is not two-dimensional or out
/// of bounds.
pub fn select_frame(columns: &Vec<(String, Vec<String>)>, sel: &Vec<SelectInfoElem>) -> (r: Result<
    Vec<(String, Vec<String>)>,
    AnnError,
>)
    requires
        frame_wf(columns@),
    ensures
        r is Ok <==> (sel@.len() == 2 && sel@[0].valid(frame_height(columns@)) && sel@[1].valid(
            columns@.len() as nat,
        )),
        r is Err ==> r == Err::<Vec<(String, Vec<String>)>, AnnError>(AnnError::SelectionError),
        r matches Ok(t) ==> {
            let rows = sel@[0].indices(frame_height(columns@));
            let cols = sel@[1].indices(columns@.len() as nat);
            table_view(t@) == Seq::new(
                cols.len(),
                |j: int| (columns@[cols[j]].0@, pick_names(strs(columns@[cols[j]].1@), rows)),
            )
        },
{
    let height = if columns.len() == 0 {
        0
    } else {
        columns[0].1.len()
    };
    if sel.len() != 2 || !sel[0].is_valid(height) || !sel[1].is_valid(columns.len()) {
        return Err(AnnError::SelectionError);
    }
    let ghost rows = sel@[0].indices(height as nat);
    let ghost cols = sel@[1].indices(columns@.len() as nat);
    let ri = sel[0].to_vec(height);
    let ci = sel[1].to_vec(columns.len());
    let mut out: Vec<(String, Vec<String>)> = Vec::new();
    let mut j: usize = 0;
    while j < ci.len()
        invariant
            frame_wf(columns@),
            height == frame_height(columns@),
            ri@.len() == rows.len(),
            forall|t: int| 0 <= t < ri@.len() ==> ri@[t] as int == rows[t],
            forall|t: int| 0 <= t < ri@.len() ==> ri@[t] < height,
            ci@.len() == cols.len(),
            forall|t: int| 0 <= t < ci@.len() ==> ci@[t] as int == cols[t],
            forall|t: int| 0 <= t < ci@.len() ==> ci@[t] < columns@.len(),
            j <= ci@.len(),
            out@.len() == j,
            forall|t: int|
                0 <= t < j ==> (#[trigger] out@[t]).0@ == columns@[cols[t]].0@ && strs(out@[t].1@)
                    == pick_names(strs(columns@[cols[t]].1@), rows),
        decreases ci@.len() - j,
    {
        let c = &columns[ci[j]];
        assert(c.1@.len() == height);
        let mut picked: Vec<String> = Vec::new();
        let mut i: usize = 0;
        while i < ri.len()
            invariant
                c.1@.len() == height,
                ri@.len() == rows.len(),
                forall|t: int| 0 <= t < ri@.len() ==> ri@[t] as int == rows[t],
                forall|t: int| 0 <= t < ri@.len() ==> ri@[t] < height,
                i <= ri@.len(),
                picked@.len() == i,
                forall|t: int| 0 <= t < i ==> (#[trigger] picked@[t])@ == c.1@[rows[t]]@,
            decreases ri@.len() - i,
        {
            picked.push(c.1[ri[i]].clone());
            i = i + 1;
        }
        assert(strs(picked@) =~= pick_names(strs(c.1@), rows));
        out.push((c.0.clone(), picked));
        j = j + 1;
    }
    let ghost expect = Seq::new(
        cols.len(),
        |j: int| (columns@[cols[j]].0@, pick_names(strs(columns@[cols[j]].1@), rows)),
    );
    assert(table_view(out@) =~= expect);
    Ok(out)
}

/// The stored frame after writing `columns` over `old`: the columns and
/// their order are replaced, the index is kept when the new frame has no
/// row or as many rows as the index, and is otherwise replaced by a range
/// index over the new rows.
pub fn overwrite_frame(old: &FrameRecord, columns: &Vec<(String, Vec<String>)>) -> (r: FrameRecord)
    requires
        keys_unique(entry_keys(columns@)),
    ensures
        r.encoding_type@ == "dataframe"@,
        r.encoding_version@ == "0.2.0"@,
        strs(r.column_order@) == entry_keys(columns@),
        table_view(r.columns@) == table_view(columns@),
        (frame_height(columns@) == 0 || frame_height(columns@) == old.index.values@.len()) ==> r.index@
            == old.index@,
        !(frame_height(columns@) == 0 || frame_height(columns@) == old.index.values@.len())
            ==> r.index@ == encode_index(
            (default_index_name(), IndexModel::Range(0, frame_height(columns@) as usize)),
            true,
        ),
{
    let fresh = write_frame(columns);
    let n = if columns.len() == 0 {
        0
    } else {
        columns[0].1.len()
    };
    if n == 0 || n == old.index.values.len() {
        let index = copy_record(&old.index);
        FrameRecord { index, ..fresh }
    } else {
        fresh
    }
}

/// A copy of an index record.
pub fn copy_record(rec: &IndexRecord) -> (r: IndexRecord)
    ensures
        r@ == rec@,
{
    IndexRecord {
        index_name: rec.index_name.clone(),
        values: copy_strings(&rec.values),
        index_type: match &rec.index_type {
            Some(t) => Some(t.clone()),
            None => None,
        },
        names: match &rec.names {
            Some(v) => Some(copy_strings(v)),
            None => None,
        },
        intervals: match &rec.intervals {
            Some(v) => Some(copy_intervals(v)),
            None => None,
        },
        start: rec.start,
        end: rec.end,
    }
}

fn copy_intervals(v: &Vec<crate::index::Interval>) -> (r: Vec<crate::index::Interval>)
    ensures
        r@ == v@,
{
    let mut out: Vec<crate::index::Interval> = Vec::new();
    let mut i: usize = 0;
    while i < v.len()
        invariant
            i <= v@.len(),
            out@ == v@.subrange(0, i as int),
        decreases v@.len() - i,
    {
        out.push(v[i]);
        i = i + 1;
    }
    assert(out@ == v@.subrange(0, v@.len() as int));
    out
}

} // verus!
