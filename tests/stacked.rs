use anndata::{AnnError, ArrayData, Encoding, SelectInfoElem, Slice, StackedArrayElem};

fn array(start: i64, nrows: usize, ncols: usize) -> ArrayData {
    let rows: Vec<Vec<i64>> = (0..nrows)
        .map(|r| (0..ncols).map(|c| (start + r as i64) * 10 + c as i64).collect())
        .collect();
    ArrayData::new(Encoding::Dense, ncols, rows).unwrap()
}

fn three_parts() -> StackedArrayElem {
    StackedArrayElem::new(vec![array(0, 3, 2), array(3, 2, 2), array(5, 4, 2)]).unwrap()
}

#[test]
fn shape_adds_rows() {
    let s = three_parts();
    assert_eq!(s.shape(), (9, 2));
    assert_eq!(s.n_partitions(), 3);
}

#[test]
fn data_concatenates_rows() {
    let d = three_parts().data();
    assert_eq!(d.rows.len(), 9);
    for r in 0..9 {
        assert_eq!(d.rows[r], vec![r as i64 * 10, r as i64 * 10 + 1]);
    }
}

#[test]
fn select_returns_rows_in_selection_order() {
    let s = three_parts();
    let a = s.select(&vec![SelectInfoElem::Index(vec![7, 0, 4]), SelectInfoElem::full()]).unwrap();
    assert_eq!(a.rows, vec![vec![70, 71], vec![0, 1], vec![40, 41]]);
    assert_eq!(a.ncols, 2);
}

#[test]
fn select_matches_direct_selection_of_concatenation() {
    let s = three_parts();
    let sel = vec![8, 2, 2, 5, 0, 3];
    let picked = s.select(&vec![SelectInfoElem::Index(sel.clone()), SelectInfoElem::full()]).unwrap();
    let whole = s.data();
    let direct: Vec<Vec<i64>> = sel.iter().map(|&g| whole.rows[g].clone()).collect();
    assert_eq!(picked.rows, direct);
    let mut a = picked.rows.clone();
    let mut b = direct.clone();
    a.sort();
    b.sort();
    assert_eq!(a, b);
}

#[test]
fn select_range_and_columns() {
    let s = three_parts();
    let a = s
        .select(&vec![
            SelectInfoElem::Slice(Slice { start: 2, end: Some(6), step: 1 }),
            SelectInfoElem::Index(vec![1]),
        ])
        .unwrap();
    assert_eq!(a.rows, vec![vec![21], vec![31], vec![41], vec![51]]);
}

#[test]
fn select_rejects_bad_selections() {
    let s = three_parts();
    assert_eq!(s.select(&vec![SelectInfoElem::full()]).unwrap_err(), AnnError::SelectionError);
    assert_eq!(
        s.select(&vec![SelectInfoElem::Index(vec![9]), SelectInfoElem::full()]).unwrap_err(),
        AnnError::SelectionError
    );
    assert_eq!(
        s.select(&vec![SelectInfoElem::full(), SelectInfoElem::Index(vec![2])]).unwrap_err(),
        AnnError::SelectionError
    );
}

#[test]
fn stacking_needs_same_encoding() {
    let other = ArrayData::new(Encoding::Csr, 2, vec![vec![1, 2]]).unwrap();
    let r = StackedArrayElem::new(vec![array(0, 1, 2), other]);
    assert_eq!(r.unwrap_err(), AnnError::EncodingMismatch);
}

#[test]
fn stacking_needs_same_width() {
    let r = StackedArrayElem::new(vec![array(0, 1, 2), array(0, 1, 3)]);
    assert_eq!(r.unwrap_err(), AnnError::DimensionMismatch);
}

#[test]
fn stacking_nothing_is_empty() {
    let s = StackedArrayElem::new(Vec::new()).unwrap();
    assert_eq!(s.shape(), (0, 0));
}

#[test]
fn array_rows_must_match_width() {
    let r = ArrayData::new(Encoding::Dense, 2, vec![vec![1, 2], vec![3]]);
    assert_eq!(r.unwrap_err(), AnnError::DimensionMismatch);
}

#[test]
fn chunks_walk_rows_in_order() {
    let s = three_parts();
    let c = s.chunk(2, 4);
    assert_eq!(c.rows, vec![vec![20, 21], vec![30, 31], vec![40, 41], vec![50, 51]]);
    let last = s.chunk(8, 4);
    assert_eq!(last.rows, vec![vec![80, 81]]);
    assert!(s.chunk(9, 4).rows.is_empty());
    assert!(s.chunk(20, 4).rows.is_empty());
    let mut all = Vec::new();
    let mut start = 0;
    while start < 9 {
        all.extend(s.chunk(start, 4).rows);
        start += 4;
    }
    assert_eq!(all, s.data().rows);
}
