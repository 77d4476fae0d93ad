use anndata::{
    AnnError, ArrayData, Axis, AxisArrays, Data, Dim, ElemCollection, Encoding, InnerAxisArrays,
    SelectInfoElem, StackedAxisArrays,
};

fn filled(nrows: usize, ncols: usize, v: i64) -> ArrayData {
    ArrayData::new(Encoding::Dense, ncols, vec![vec![v; ncols]; nrows]).unwrap()
}

#[test]
fn row_axis_sets_and_checks_first_dimension() {
    let mut d1 = Dim::empty();
    let mut d2 = Dim::empty();
    let mut arrays = InnerAxisArrays::new_empty(Axis::Row);
    assert_eq!(arrays.add_data("A", filled(10, 3, 1), &mut d1, &mut d2), Ok(()));
    assert_eq!(d1.get(), 10);
    assert_eq!(arrays.add_data("B", filled(10, 7, 2), &mut d1, &mut d2), Ok(()));
    assert_eq!(arrays.add_data("C", filled(9, 4, 3), &mut d1, &mut d2), Err(AnnError::DimensionMismatch));
    assert!(arrays.get("C").is_none());
    assert_eq!(arrays.keys(), vec!["A".to_string(), "B".to_string()]);
    assert_eq!(d1.get(), 10);
    assert!(d2.is_empty());
}

#[test]
fn pairwise_axis_needs_square_arrays() {
    let mut d1 = Dim::empty();
    let mut d2 = Dim::empty();
    let mut arrays = InnerAxisArrays::new_empty(Axis::Pairwise);
    assert_eq!(arrays.add_data("P", filled(5, 5, 0), &mut d1, &mut d2), Ok(()));
    assert_eq!(arrays.add_data("Q", filled(5, 4, 0), &mut d1, &mut d2), Err(AnnError::AxisViolation));
    assert!(arrays.get("Q").is_none());
    assert_eq!(d1.get(), 5);
}

#[test]
fn row_column_axis_sets_both_dimensions() {
    let mut d1 = Dim::empty();
    let mut d2 = Dim::new(4);
    let mut arrays = InnerAxisArrays::new_empty(Axis::RowColumn);
    assert_eq!(arrays.add_data("A", filled(2, 3, 0), &mut d1, &mut d2), Err(AnnError::DimensionMismatch));
    // the first dimension was accepted before the second was refused
    assert_eq!(d1.get(), 2);
    assert!(arrays.get("A").is_none());
    assert_eq!(arrays.add_data("A", filled(2, 4, 0), &mut d1, &mut d2), Ok(()));
}

#[test]
fn replacing_keeps_position() {
    let mut d1 = Dim::empty();
    let mut d2 = Dim::empty();
    let mut arrays = InnerAxisArrays::new_empty(Axis::Row);
    arrays.add_data("A", filled(2, 1, 1), &mut d1, &mut d2).unwrap();
    arrays.add_data("B", filled(2, 1, 2), &mut d1, &mut d2).unwrap();
    arrays.add_data("A", filled(2, 3, 9), &mut d1, &mut d2).unwrap();
    assert_eq!(arrays.keys(), vec!["A".to_string(), "B".to_string()]);
    assert_eq!(arrays.get("A").unwrap().ncols, 3);
    arrays.remove_data("A");
    assert_eq!(arrays.keys(), vec!["B".to_string()]);
}

#[test]
fn add_from_chunks_stacks_then_checks() {
    let mut d1 = Dim::new(5);
    let mut d2 = Dim::empty();
    let mut arrays = InnerAxisArrays::new_empty(Axis::Row);
    let chunks = vec![filled(2, 3, 1), filled(3, 3, 2)];
    assert_eq!(arrays.add_data_from_iter("A", chunks, &mut d1, &mut d2), Ok(()));
    let a = arrays.get("A").unwrap();
    assert_eq!(a.rows.len(), 5);
    assert_eq!(a.rows[4], vec![2, 2, 2]);
    let bad = vec![filled(2, 3, 1), filled(2, 3, 2)];
    assert_eq!(arrays.add_data_from_iter("A", bad, &mut d1, &mut d2), Err(AnnError::DimensionMismatch));
    assert!(arrays.get("A").is_none());
}

#[test]
fn subset_rewrites_arrays_and_dimensions() {
    let mut d1 = Dim::empty();
    let mut d2 = Dim::empty();
    let mut arrays = InnerAxisArrays::new_empty(Axis::Pairwise);
    let rows = vec![vec![0, 1, 2], vec![10, 11, 12], vec![20, 21, 22]];
    arrays.add_data("P", ArrayData::new(Encoding::Dense, 3, rows).unwrap(), &mut d1, &mut d2).unwrap();
    assert_eq!(
        arrays.subset(&vec![SelectInfoElem::full(), SelectInfoElem::full()], &mut d1, &mut d2),
        Err(AnnError::SelectionError)
    );
    assert_eq!(arrays.subset(&vec![SelectInfoElem::Index(vec![2, 0])], &mut d1, &mut d2), Ok(()));
    assert_eq!(d1.get(), 2);
    assert_eq!(arrays.get("P").unwrap().rows, vec![vec![22, 20], vec![2, 0]]);
}

#[test]
fn export_select_projects_rows() {
    let mut d1 = Dim::empty();
    let mut d2 = Dim::empty();
    let mut arrays = InnerAxisArrays::new_empty(Axis::Row);
    let rows = vec![vec![1, 2], vec![3, 4], vec![5, 6]];
    arrays.add_data("M", ArrayData::new(Encoding::Dense, 2, rows).unwrap(), &mut d1, &mut d2).unwrap();
    let out = arrays.export_select(&vec![SelectInfoElem::Index(vec![1])], &d1, &d2).unwrap();
    assert_eq!(out.get("M").unwrap().rows, vec![vec![3, 4]]);
    let all = arrays.export_select(&vec![SelectInfoElem::full()], &d1, &d2).unwrap();
    assert_eq!(all.get("M").unwrap().rows.len(), 3);
    assert_eq!(
        arrays.export_select(&vec![SelectInfoElem::Index(vec![3])], &d1, &d2).unwrap_err(),
        AnnError::SelectionError
    );
    assert_eq!(arrays.size(&d1), 3);
}

#[test]
fn axis_arrays_new_checks_shapes() {
    let mut d1 = Dim::empty();
    let mut d2 = Dim::empty();
    let ok = AxisArrays::new(
        Axis::Row,
        vec![("a".to_string(), filled(4, 1, 0)), ("b".to_string(), filled(4, 2, 0))],
        &mut d1,
        &mut d2,
    );
    assert!(ok.is_ok());
    assert_eq!(d1.get(), 4);
    let mut e1 = Dim::empty();
    let bad = AxisArrays::new(
        Axis::Row,
        vec![("a".to_string(), filled(4, 1, 0)), ("b".to_string(), filled(3, 1, 0))],
        &mut e1,
        &mut d2,
    );
    assert_eq!(bad.unwrap_err(), AnnError::DimensionMismatch);
    assert!(e1.is_empty());
    let sq = AxisArrays::new(Axis::Pairwise, vec![("a".to_string(), filled(4, 1, 0))], &mut e1, &mut d2);
    assert_eq!(sq.unwrap_err(), AnnError::AxisViolation);
    let mut arrays = ok.unwrap();
    assert!(!arrays.is_empty());
    arrays.clear();
    assert!(arrays.is_empty());
    assert!(arrays.inner().is_none());
}

#[test]
fn elem_collection_add_remove_clear() {
    let mut c = ElemCollection::new(vec![
        ("x".to_string(), Data::Scalar(1)),
        ("y".to_string(), Data::Text("t".to_string())),
        ("x".to_string(), Data::Scalar(2)),
    ]);
    assert_eq!(c.keys(), vec!["x".to_string(), "y".to_string()]);
    assert!(matches!(c.get_item("x"), Some(Data::Scalar(2))));
    c.add("z", Data::Scalar(3));
    c.add("x", Data::Scalar(4));
    assert!(matches!(c.get_item("x"), Some(Data::Scalar(4))));
    c.remove("y");
    assert!(c.get_item("y").is_none());
    assert_eq!(c.keys(), vec!["x".to_string(), "z".to_string()]);
    assert!(!c.is_empty());
    c.clear();
    assert!(c.is_none());
    assert!(c.is_empty());
    assert!(c.keys().is_empty());
    assert!(ElemCollection::empty().is_empty());
}

#[test]
fn elem_collection_export_copies() {
    let mut c = ElemCollection::new(Vec::new());
    c.add("t", Data::Table(vec![("keys".to_string(), vec!["a".to_string()])]));
    c.add("s", Data::Scalar(7));
    let keys = c.keys();
    assert_eq!(keys, vec!["t".to_string(), "s".to_string()]);
}

#[test]
fn stacked_axis_arrays_keep_shared_stackable_names() {
    let mut d1 = Dim::empty();
    let mut d2 = Dim::empty();
    let a = AxisArrays::new(
        Axis::Row,
        vec![("u".to_string(), filled(2, 3, 1)), ("v".to_string(), filled(2, 1, 1)), ("w".to_string(), filled(2, 2, 1))],
        &mut d1,
        &mut d2,
    )
    .unwrap();
    let mut e1 = Dim::empty();
    let b = AxisArrays::new(
        Axis::Row,
        vec![("u".to_string(), filled(3, 3, 2)), ("w".to_string(), filled(3, 5, 2))],
        &mut e1,
        &mut d2,
    )
    .unwrap();
    let s = StackedAxisArrays::new(Axis::Row, &vec![&a, &b]).unwrap();
    assert!(s.contains_key("u"));
    assert!(!s.contains_key("v"));
    assert!(!s.contains_key("w"));
    assert_eq!(s.get("u").unwrap().shape(), (5, 3));
    assert_eq!(s.axis(), Axis::Row);
    let p = AxisArrays::new_empty(Axis::Pairwise);
    assert_eq!(StackedAxisArrays::new(Axis::Row, &vec![&a, &p]).unwrap_err(), AnnError::AxisViolation);
    let gone = AxisArrays::empty();
    assert!(StackedAxisArrays::new(Axis::Row, &vec![&a, &gone]).unwrap().keys().is_empty());
    assert!(StackedAxisArrays::empty(Axis::Pairwise).keys().is_empty());
}

#[test]
fn descriptions_list_names() {
    let mut d1 = Dim::empty();
    assert_eq!(d1.describe(), "None");
    let mut d2 = Dim::empty();
    let mut arrays = InnerAxisArrays::new_empty(Axis::RowColumn);
    arrays.add_data("pca", filled(2, 2, 0), &mut d1, &mut d2).unwrap();
    arrays.add_data("umap", filled(2, 2, 0), &mut d1, &mut d2).unwrap();
    assert_eq!(arrays.describe(), "AxisArrays (row/column) with keys: pca, umap");
    assert_eq!(d1.describe(), "2");
    assert_eq!(Dim::new(1024).describe(), "1024");
    let c = ElemCollection::new(vec![("x".to_string(), Data::Scalar(1))]);
    assert!(c.keys() == vec!["x".to_string()]);
    assert_eq!(StackedAxisArrays::empty(Axis::Pairwise).describe(), "Stacked AxisArrays (pairwise) with keys: ");
}

#[test]
fn full_selection_exports_whatever_its_length() {
    let mut d1 = Dim::empty();
    let mut d2 = Dim::empty();
    let mut arrays = InnerAxisArrays::new_empty(Axis::Row);
    arrays.add_data("M", filled(3, 2, 4), &mut d1, &mut d2).unwrap();
    let sel = vec![SelectInfoElem::full(), SelectInfoElem::full()];
    let out = arrays.export_select(&sel, &d1, &d2).unwrap();
    assert_eq!(out.get("M").unwrap().rows, vec![vec![4, 4]; 3]);
    let none: Vec<SelectInfoElem> = Vec::new();
    assert!(arrays.export_select(&none, &d1, &d2).is_ok());
    assert_eq!(
        arrays.export_select(&vec![SelectInfoElem::Index(vec![0]), SelectInfoElem::full()], &d1, &d2).unwrap_err(),
        AnnError::SelectionError
    );
}

#[test]
fn chunks_of_wrong_height_keep_the_dimension() {
    let mut d1 = Dim::new(10);
    let mut d2 = Dim::empty();
    let mut arrays = InnerAxisArrays::new_empty(Axis::Row);
    arrays.add_data("A", filled(10, 3, 0), &mut d1, &mut d2).unwrap();
    let r = arrays.add_data_from_iter("C", vec![filled(5, 4, 1), filled(4, 4, 1)], &mut d1, &mut d2);
    assert_eq!(r, Err(AnnError::DimensionMismatch));
    assert!(arrays.get("C").is_none());
    assert_eq!(d1.get(), 10);
    assert!(arrays.get("A").is_some());
    let mixed = vec![filled(5, 4, 1), ArrayData::new(Encoding::Csc, 4, vec![vec![0; 4]; 5]).unwrap()];
    assert_eq!(arrays.add_data_from_iter("D", mixed, &mut d1, &mut d2), Err(AnnError::EncodingMismatch));
    assert_eq!(arrays.add_data_from_iter("E", vec![filled(6, 2, 1), filled(4, 2, 1)], &mut d1, &mut d2), Ok(()));
    let e = arrays.get("E").unwrap();
    assert_eq!((e.rows.len(), e.ncols), (10, 2));
}

#[test]
fn axis_arrays_new_keeps_last_array_and_dims_on_empty_input() {
    let mut d1 = Dim::empty();
    let mut d2 = Dim::new(3);
    let arrays = AxisArrays::new(
        Axis::Row,
        vec![("a".to_string(), filled(2, 1, 1)), ("a".to_string(), filled(2, 5, 2))],
        &mut d1,
        &mut d2,
    )
    .unwrap();
    assert_eq!(arrays.inner().unwrap().get("a").unwrap().ncols, 5);
    let mut e1 = Dim::empty();
    let empty = AxisArrays::new(Axis::RowColumn, Vec::new(), &mut e1, &mut d2).unwrap();
    assert!(empty.is_empty());
    assert!(e1.is_empty());
    assert_eq!(d2.get(), 3);
}
