use anndata::{AnnData, AnnError, ArrayData, Data, DataFrameIndex, Encoding, SelectInfoElem};

fn filled(nrows: usize, ncols: usize, v: i64) -> ArrayData {
    ArrayData::new(Encoding::Dense, ncols, vec![vec![v; ncols]; nrows]).unwrap()
}

fn names(v: &[&str]) -> Vec<String> {
    v.iter().map(|s| s.to_string()).collect()
}

#[test]
fn matrix_sets_both_dimensions() {
    let mut a = AnnData::empty();
    assert_eq!(a.n_obs(), 0);
    assert_eq!(a.set_x(filled(3, 4, 1)), Ok(()));
    assert_eq!((a.n_obs(), a.n_vars()), (3, 4));
    assert_eq!(a.set_x(filled(3, 5, 1)), Err(AnnError::DimensionMismatch));
    assert_eq!(a.read_x().unwrap().ncols, 4);
    a.del_x();
    assert!(a.read_x().is_none());
    assert_eq!((a.n_obs(), a.n_vars()), (3, 4));
}

#[test]
fn aligned_arrays_follow_their_axes() {
    let mut a = AnnData::new(4, 2);
    assert_eq!(a.add_obsm("pca", filled(4, 10, 0)), Ok(()));
    assert_eq!(a.add_obsm("bad", filled(3, 10, 0)), Err(AnnError::DimensionMismatch));
    assert_eq!(a.add_obsp("dist", filled(4, 4, 0)), Ok(()));
    assert_eq!(a.add_obsp("bad", filled(4, 3, 0)), Err(AnnError::AxisViolation));
    assert_eq!(a.add_obsp("bad", filled(2, 2, 0)), Err(AnnError::DimensionMismatch));
    assert_eq!(a.add_varm("loadings", filled(2, 10, 0)), Ok(()));
    assert_eq!(a.add_varm("bad", filled(4, 10, 0)), Err(AnnError::DimensionMismatch));
    assert_eq!(a.add_varp("corr", filled(2, 2, 0)), Ok(()));
    assert_eq!(a.obsm_keys(), names(&["pca"]));
    assert_eq!(a.obsp_keys(), names(&["dist"]));
    assert_eq!(a.varm_keys(), names(&["loadings"]));
    assert_eq!(a.varp_keys(), names(&["corr"]));
    for k in a.obsm_keys() {
        assert_eq!(a.fetch_obsm(&k).unwrap().rows.len(), a.n_obs());
    }
    for k in a.varp_keys() {
        let v = a.fetch_varp(&k).unwrap();
        assert_eq!((v.rows.len(), v.ncols), (a.n_vars(), a.n_vars()));
    }
    a.del_obsm();
    assert!(a.obsm_keys().is_empty());
    assert!(a.fetch_obsm("pca").is_none());
}

#[test]
fn first_aligned_array_sets_dimension() {
    let mut a = AnnData::empty();
    assert_eq!(a.add_obsp("g", filled(6, 6, 1)), Ok(()));
    assert_eq!(a.n_obs(), 6);
    assert_eq!(a.set_x(filled(5, 2, 0)), Err(AnnError::DimensionMismatch));
    assert_eq!(a.set_x(filled(6, 2, 0)), Ok(()));
}

#[test]
fn names_and_positions() {
    let mut a = AnnData::new(3, 2);
    assert_eq!(a.set_obs_names(DataFrameIndex::from_names(names(&["c1", "c2"]))), Err(AnnError::DimensionMismatch));
    assert!(a.obs_names().is_empty());
    assert_eq!(a.set_obs_names(DataFrameIndex::from_names(names(&["c1", "c2", "c3"]))), Ok(()));
    assert_eq!(a.set_var_names(DataFrameIndex::from_names(names(&["g1", "g2"]))), Ok(()));
    assert_eq!(a.obs_names(), names(&["c1", "c2", "c3"]));
    assert_eq!(a.var_names(), names(&["g1", "g2"]));
    assert_eq!(a.obs_ix(&names(&["c3", "c1"])), Ok(vec![2, 0]));
    assert_eq!(a.var_ix(&names(&["g2"])), Ok(vec![1]));
    assert_eq!(a.obs_ix(&names(&["c4"])), Err(AnnError::MissingKey));
}

#[test]
fn obs_columns_and_uns() {
    let mut a = AnnData::empty();
    assert_eq!(a.set_obs_column("batch", names(&["a", "a", "b"])), Ok(()));
    assert_eq!(a.n_obs(), 3);
    assert_eq!(a.set_obs_column("other", names(&["a"])), Err(AnnError::DimensionMismatch));
    assert_eq!(a.obs_column("batch").unwrap(), &names(&["a", "a", "b"]));
    assert_eq!(a.obs_keys(), names(&["batch"]));
    a.del_obs();
    assert!(a.obs_keys().is_empty());
    a.add_uns("n", Data::Scalar(5));
    assert!(matches!(a.fetch_uns("n"), Some(Data::Scalar(5))));
    assert_eq!(a.uns_keys(), names(&["n"]));
    a.del_uns();
    assert!(a.fetch_uns("n").is_none());
}

#[test]
fn matrix_slice() {
    let mut a = AnnData::empty();
    assert!(matches!(a.read_x_slice(&vec![SelectInfoElem::full(), SelectInfoElem::full()]), Ok(None)));
    let rows = vec![vec![1, 2, 3], vec![4, 5, 6]];
    a.set_x(ArrayData::new(Encoding::Dense, 3, rows).unwrap()).unwrap();
    let s = a
        .read_x_slice(&vec![SelectInfoElem::Index(vec![1]), SelectInfoElem::Index(vec![2, 0])])
        .unwrap()
        .unwrap();
    assert_eq!(s.rows, vec![vec![6, 4]]);
    assert!(matches!(
        a.read_x_slice(&vec![SelectInfoElem::Index(vec![2]), SelectInfoElem::full()]),
        Err(AnnError::SelectionError)
    ));
}

#[test]
fn write_select_projects_every_part() {
    let mut a = AnnData::empty();
    let rows = vec![vec![1, 2], vec![3, 4], vec![5, 6]];
    a.set_x(ArrayData::new(Encoding::Dense, 2, rows).unwrap()).unwrap();
    a.set_obs_names(DataFrameIndex::from_names(names(&["c1", "c2", "c3"]))).unwrap();
    a.set_obs_column("kind", names(&["x", "y", "z"])).unwrap();
    a.add_obsm("emb", ArrayData::new(Encoding::Dense, 1, vec![vec![10], vec![20], vec![30]]).unwrap()).unwrap();
    a.add_obsp("d", filled(3, 3, 7)).unwrap();
    a.add_varm("w", filled(2, 4, 1)).unwrap();
    a.add_uns("note", Data::Text("kept".to_string()));
    let b = a.write_select(&vec![SelectInfoElem::Index(vec![2, 0]), SelectInfoElem::Index(vec![1])]).unwrap();
    assert_eq!((b.n_obs(), b.n_vars()), (2, 1));
    assert_eq!(b.read_x().unwrap().rows, vec![vec![6], vec![2]]);
    assert_eq!(b.obs_names(), names(&["c3", "c1"]));
    assert_eq!(b.obs_column("kind").unwrap(), &names(&["z", "x"]));
    assert_eq!(b.fetch_obsm("emb").unwrap().rows, vec![vec![30], vec![10]]);
    let d = b.fetch_obsp("d").unwrap();
    assert_eq!((d.rows.len(), d.ncols), (2, 2));
    assert_eq!(b.fetch_varm("w").unwrap().rows.len(), 1);
    assert!(matches!(b.fetch_uns("note"), Some(Data::Text(t)) if t == "kept"));
    assert!(matches!(a.write_select(&vec![SelectInfoElem::full()]), Err(AnnError::SelectionError)));
    assert!(matches!(
        a.write_select(&vec![SelectInfoElem::Index(vec![3]), SelectInfoElem::full()]),
        Err(AnnError::SelectionError)
    ));
}

#[test]
fn var_columns_follow_variables() {
    let mut a = AnnData::new(2, 3);
    assert_eq!(a.set_var_column("gene", names(&["g1", "g2", "g3"])), Ok(()));
    assert_eq!(a.set_var_column("bad", names(&["g1"])), Err(AnnError::DimensionMismatch));
    assert_eq!(a.var_keys(), names(&["gene"]));
    assert_eq!(a.var_column("gene").unwrap(), &names(&["g1", "g2", "g3"]));
    let b = a.write_select(&vec![SelectInfoElem::full(), SelectInfoElem::Index(vec![2, 1])]).unwrap();
    assert_eq!(b.var_column("gene").unwrap(), &names(&["g3", "g2"]));
    a.del_var();
    assert!(a.var_keys().is_empty());
}

#[test]
fn matrix_from_chunks() {
    let mut a = AnnData::empty();
    let chunks = vec![filled(2, 3, 1), filled(1, 3, 2)];
    assert_eq!(a.set_x_from_iter(chunks), Ok(()));
    assert_eq!((a.n_obs(), a.n_vars()), (3, 3));
    assert_eq!(a.read_x().unwrap().rows[2], vec![2, 2, 2]);
    assert_eq!(a.set_x_from_iter(vec![filled(2, 3, 1), filled(1, 2, 2)]), Err(AnnError::DimensionMismatch));
    assert_eq!(a.set_x_from_iter(vec![filled(4, 3, 1)]), Err(AnnError::DimensionMismatch));
    assert_eq!(a.read_x().unwrap().rows.len(), 3);
}
