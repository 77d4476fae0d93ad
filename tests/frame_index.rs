use anndata::{AnnError, DataFrameIndex, IndexRecord, Interval, SelectInfoElem, Slice};

fn names(v: &[&str]) -> Vec<String> {
    v.iter().map(|s| s.to_string()).collect()
}

fn bins() -> DataFrameIndex {
    DataFrameIndex::from_intervals(vec![
        ("chr1".to_string(), Interval { start: 0, end: 1000, size: 500, step: 500 }),
        ("chr2".to_string(), Interval { start: 100, end: 400, size: 250, step: 200 }),
    ])
}

#[test]
fn empty_index() {
    let ix = DataFrameIndex::empty();
    assert!(ix.is_empty());
    assert_eq!(ix.len(), 0);
    assert_eq!(ix.index_name, "index");
    assert!(ix.into_vec().is_empty());
}

#[test]
fn list_index_lookup() {
    let ix = DataFrameIndex::from_names(names(&["a", "b", "c", "b"]));
    assert_eq!(ix.len(), 4);
    assert_eq!(ix.get_index("a"), Some(0));
    assert_eq!(ix.get_index("b"), Some(1));
    assert_eq!(ix.get_index("z"), None);
}

#[test]
fn range_index_names() {
    let ix = DataFrameIndex::from_range(3, 6);
    assert_eq!(ix.len(), 3);
    assert_eq!(ix.to_vec(), names(&["3", "4", "5"]));
    assert_eq!(ix.get_index("4"), Some(1));
    assert_eq!(DataFrameIndex::from_range(5, 2).len(), 0);
}

#[test]
fn interval_index_names() {
    let ix = bins();
    assert_eq!(ix.len(), 4);
    assert_eq!(ix.to_vec(), names(&["chr1:0-500", "chr1:500-1000", "chr2:100-350", "chr2:300-400"]));
    assert_eq!(ix.get_index("chr2:100-350"), Some(2));
}

#[test]
fn select_list_reindexes() {
    let ix = DataFrameIndex::from_names(names(&["a", "b", "c"]));
    let s = ix.select(&SelectInfoElem::Index(vec![2, 0, 0]));
    assert_eq!(s.to_vec(), names(&["c", "a", "a"]));
    assert_eq!(s.index_name, "index");
}

#[test]
fn select_range_slice_stays_range() {
    let ix = DataFrameIndex::from_range(10, 20);
    let s = ix.select(&SelectInfoElem::Slice(Slice { start: 2, end: Some(5), step: 1 }));
    assert_eq!(s.to_vec(), names(&["12", "13", "14"]));
    let rec = s.to_record(true);
    assert_eq!(rec.index_type.as_deref(), Some("range"));
    assert_eq!((rec.start, rec.end), (Some(12), Some(15)));
}

#[test]
fn select_range_strided_becomes_list() {
    let ix = DataFrameIndex::from_range(0, 6);
    let s = ix.select(&SelectInfoElem::Slice(Slice { start: 0, end: None, step: 2 }));
    assert_eq!(s.to_vec(), names(&["0", "2", "4"]));
    assert_eq!(s.to_record(true).index_type.as_deref(), Some("list"));
}

#[test]
fn select_intervals_becomes_list() {
    let s = bins().select(&SelectInfoElem::Index(vec![3, 1]));
    assert_eq!(s.to_vec(), names(&["chr2:300-400", "chr1:500-1000"]));
    assert_eq!(s.to_record(true).index_type.as_deref(), Some("list"));
}

#[test]
fn full_selection_keeps_index() {
    for ix in [DataFrameIndex::from_names(names(&["x", "y"])), DataFrameIndex::from_range(4, 9), bins()] {
        let before = ix.to_record(true);
        let after = ix.select(&SelectInfoElem::full()).to_record(true);
        assert_eq!(after.index_name, before.index_name);
        assert_eq!(after.values, before.values);
        assert_eq!(after.index_type, before.index_type);
        assert_eq!(after.names, before.names);
        assert_eq!(after.intervals, before.intervals);
        assert_eq!((after.start, after.end), (before.start, before.end));
    }
}

fn same(a: &DataFrameIndex, b: &DataFrameIndex) -> bool {
    let (x, y) = (a.to_record(true), b.to_record(true));
    x.index_name == y.index_name
        && x.values == y.values
        && x.index_type == y.index_type
        && x.names == y.names
        && x.intervals == y.intervals
        && x.start == y.start
        && x.end == y.end
}

#[test]
fn record_round_trip_all_variants() {
    for ix in [DataFrameIndex::from_names(names(&["x", "y"])), DataFrameIndex::from_range(4, 9), bins()] {
        let back = DataFrameIndex::from_record(&ix.to_record(true)).unwrap();
        assert!(same(&ix, &back));
    }
}

#[test]
fn interval_fallback_to_list() {
    let ix = bins();
    let rec = ix.to_record(false);
    assert_eq!(rec.index_type.as_deref(), Some("list"));
    assert!(rec.names.is_none() && rec.intervals.is_none());
    let back = DataFrameIndex::from_record(&rec).unwrap();
    assert_eq!(back.to_vec(), ix.to_vec());
    assert_eq!(back.to_record(true).index_type.as_deref(), Some("list"));
}

fn record(ty: Option<&str>) -> IndexRecord {
    IndexRecord {
        index_name: "obs".to_string(),
        values: names(&["p", "q"]),
        index_type: ty.map(|t| t.to_string()),
        names: None,
        intervals: None,
        start: None,
        end: None,
    }
}

#[test]
fn missing_index_type_reads_as_list() {
    let ix = DataFrameIndex::from_record(&record(None)).unwrap();
    assert_eq!(ix.index_name, "obs");
    assert_eq!(ix.to_vec(), names(&["p", "q"]));
}

#[test]
fn unknown_index_type_is_refused() {
    assert_eq!(DataFrameIndex::from_record(&record(Some("tree"))).unwrap_err(), AnnError::EncodingMismatch);
}

#[test]
fn missing_attributes_are_reported() {
    assert_eq!(DataFrameIndex::from_record(&record(Some("range"))).unwrap_err(), AnnError::MissingKey);
    assert_eq!(DataFrameIndex::from_record(&record(Some("intervals"))).unwrap_err(), AnnError::MissingKey);
}

#[test]
fn inconsistent_interval_attributes_are_refused() {
    let mut rec = record(Some("intervals"));
    rec.names = Some(names(&["a", "b"]));
    rec.intervals = Some(vec![Interval { start: 0, end: 10, size: 5, step: 5 }]);
    assert_eq!(DataFrameIndex::from_record(&rec).unwrap_err(), AnnError::EncodingMismatch);
    rec.names = Some(names(&["a"]));
    rec.intervals = Some(vec![Interval { start: 0, end: 10, size: 5, step: 0 }]);
    assert_eq!(DataFrameIndex::from_record(&rec).unwrap_err(), AnnError::EncodingMismatch);
}

#[test]
fn full_selection_is_equal_index() {
    for ix in [DataFrameIndex::from_names(names(&["x", "y"])), DataFrameIndex::from_range(4, 9), bins()] {
        assert_eq!(ix.select(&SelectInfoElem::full()), ix);
    }
}

#[test]
fn index_equality_compares_rows_and_form() {
    assert_eq!(DataFrameIndex::from_range(0, 2), DataFrameIndex::from_range(0, 2));
    assert_ne!(DataFrameIndex::from_range(0, 2), DataFrameIndex::from_range(0, 3));
    // same names, different form
    assert_ne!(DataFrameIndex::from_range(0, 2), DataFrameIndex::from_names(names(&["0", "1"])));
    assert_ne!(bins(), DataFrameIndex::from_names(bins().to_vec()));
    let mut renamed = DataFrameIndex::from_names(names(&["a"]));
    renamed.index_name = "obs".to_string();
    assert_eq!(renamed, DataFrameIndex::from_names(names(&["a"])));
    let back = DataFrameIndex::from_record(&bins().to_record(true)).unwrap();
    assert_eq!(back, bins());
}
