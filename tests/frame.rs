use anndata::{
    frame_shape, overwrite_frame, read_frame, select_frame, write_frame, AnnError, ArrayData, Axis, Dim,
    Encoding, InnerAxisArrays, SelectInfoElem,
};

fn col(name: &str, v: &[&str]) -> (String, Vec<String>) {
    (name.to_string(), v.iter().map(|s| s.to_string()).collect())
}

#[test]
fn frame_round_trip() {
    let cols = vec![col("batch", &["a", "a", "b"]), col("kind", &["x", "y", "z"])];
    let rec = write_frame(&cols);
    assert_eq!(rec.encoding_type, "dataframe");
    assert_eq!(rec.encoding_version, "0.2.0");
    assert_eq!(rec.column_order, vec!["batch".to_string(), "kind".to_string()]);
    assert_eq!(rec.index.index_type.as_deref(), Some("range"));
    assert_eq!((rec.index.start, rec.index.end), (Some(0), Some(3)));
    assert_eq!(rec.index.values, vec!["0".to_string(), "1".to_string(), "2".to_string()]);
    assert_eq!(read_frame(&rec).unwrap(), cols);
}

#[test]
fn empty_frame_round_trip() {
    let rec = write_frame(&Vec::new());
    assert_eq!(rec.index.end, Some(0));
    assert!(read_frame(&rec).unwrap().is_empty());
}

#[test]
fn frame_follows_column_order() {
    let mut rec = write_frame(&vec![col("a", &["1"]), col("b", &["2"])]);
    rec.column_order = vec!["b".to_string(), "a".to_string()];
    assert_eq!(read_frame(&rec).unwrap(), vec![col("b", &["2"]), col("a", &["1"])]);
    rec.column_order.push("c".to_string());
    assert_eq!(read_frame(&rec).unwrap_err(), AnnError::MissingKey);
    rec.encoding_type = "array".to_string();
    assert_eq!(read_frame(&rec).unwrap_err(), AnnError::EncodingMismatch);
}

#[test]
fn axis_arrays_export_copies_everything() {
    let mut d1 = Dim::empty();
    let mut d2 = Dim::empty();
    let mut arrays = InnerAxisArrays::new_empty(Axis::Row);
    let a = ArrayData::new(Encoding::Csr, 2, vec![vec![1, 2], vec![3, 4]]).unwrap();
    arrays.add_data("m", a, &mut d1, &mut d2).unwrap();
    let out = arrays.export();
    assert_eq!(out.axis(), Axis::Row);
    assert_eq!(out.keys(), vec!["m".to_string()]);
    let m = out.get("m").unwrap();
    assert_eq!(m.rows, vec![vec![1, 2], vec![3, 4]]);
    assert_eq!(m.encoding, Encoding::Csr);
}

#[test]
fn frame_selection_picks_rows_and_columns() {
    let cols = vec![col("a", &["1", "2", "3"]), col("b", &["4", "5", "6"]), col("c", &["7", "8", "9"])];
    let out = select_frame(&cols, &vec![SelectInfoElem::Index(vec![2, 0]), SelectInfoElem::Index(vec![2, 1])]).unwrap();
    assert_eq!(out, vec![col("c", &["9", "7"]), col("b", &["6", "4"])]);
    let all = select_frame(&cols, &vec![SelectInfoElem::full(), SelectInfoElem::full()]).unwrap();
    assert_eq!(all, cols);
    assert_eq!(select_frame(&cols, &vec![SelectInfoElem::full()]).unwrap_err(), AnnError::SelectionError);
    assert_eq!(
        select_frame(&cols, &vec![SelectInfoElem::Index(vec![3]), SelectInfoElem::full()]).unwrap_err(),
        AnnError::SelectionError
    );
}

#[test]
fn frame_shape_and_overwrite() {
    let old = write_frame(&vec![col("a", &["1", "2"])]);
    assert_eq!(frame_shape(&old), (2, 1));
    let mut named = old;
    named.index.values = vec!["r1".to_string(), "r2".to_string()];
    named.index.index_type = Some("list".to_string());
    let same_height = overwrite_frame(&named, &vec![col("x", &["9", "8"]), col("y", &["7", "6"])]);
    assert_eq!(same_height.index.values, vec!["r1".to_string(), "r2".to_string()]);
    assert_eq!(frame_shape(&same_height), (2, 2));
    let taller = overwrite_frame(&named, &vec![col("x", &["1", "2", "3"])]);
    assert_eq!(taller.index.values, vec!["0".to_string(), "1".to_string(), "2".to_string()]);
    assert_eq!(taller.index.index_type.as_deref(), Some("range"));
    assert_eq!(read_frame(&taller).unwrap(), vec![col("x", &["1", "2", "3"])]);
}
