use anndata::dataset::{child_locations, stored_locations, update_anndata_locations, update_locations};
use anndata::{
    AnnData, AnnDataSet, AnnError, ArrayData, Data, DataFrameIndex, Encoding, SelectInfoElem,
    StackedAnnData,
};

fn names(v: &[&str]) -> Vec<String> {
    v.iter().map(|s| s.to_string()).collect()
}

/// An object of `n` observations and 5 variables whose matrix holds in
/// each row `first + row`.
fn child(n: usize, first: i64, obs: Option<&[&str]>) -> AnnData {
    let mut a = AnnData::empty();
    let rows: Vec<Vec<i64>> = (0..n).map(|r| vec![first + r as i64; 5]).collect();
    a.set_x(ArrayData::new(Encoding::Dense, 5, rows).unwrap()).unwrap();
    a.set_var_names(DataFrameIndex::from_names(names(&["g1", "g2", "g3", "g4", "g5"]))).unwrap();
    if let Some(o) = obs {
        a.set_obs_names(DataFrameIndex::from_names(names(o))).unwrap();
    }
    a
}

fn two_children() -> Vec<(String, AnnData)> {
    vec![("a".to_string(), child(3, 0, None)), ("b".to_string(), child(2, 3, None))]
}

#[test]
fn new_dataset_builds_annotation() {
    let ds = AnnDataSet::new(two_children(), names(&["/data/a.h5ad", "/data/b.h5ad"]), "batch").unwrap();
    assert_eq!((ds.n_obs(), ds.n_vars()), (5, 5));
    let anno = ds.get_anno();
    assert_eq!((anno.n_obs(), anno.n_vars()), (5, 5));
    assert_eq!(anno.obs_column("batch").unwrap(), &names(&["a", "a", "a", "b", "b"]));
    assert_eq!(ds.obs_names(), names(&["0", "1", "2", "3", "4"]));
    assert_eq!(ds.var_names(), names(&["g1", "g2", "g3", "g4", "g5"]));
    match anno.fetch_uns("AnnDataSet") {
        Some(Data::Table(t)) => {
            assert_eq!(t.len(), 2);
            assert_eq!(t[0], ("keys".to_string(), names(&["a", "b"])));
            assert_eq!(t[1], ("file_path".to_string(), names(&["/data/a.h5ad", "/data/b.h5ad"])));
        }
        _ => panic!("no table of children"),
    }
    let (k, p) = stored_locations(anno).unwrap();
    assert_eq!(k, names(&["a", "b"]));
    assert_eq!(p, names(&["/data/a.h5ad", "/data/b.h5ad"]));
}

#[test]
fn new_dataset_concatenates_obs_names() {
    let children = vec![
        ("a".to_string(), child(2, 0, Some(&["x1", "x2"]))),
        ("b".to_string(), child(1, 2, Some(&["y1"]))),
    ];
    let ds = AnnDataSet::new(children, names(&["a", "b"]), "sample").unwrap();
    assert_eq!(ds.obs_names(), names(&["x1", "x2", "y1"]));
    assert_eq!(ds.obs_ix(&names(&["y1"])), Ok(vec![2]));
}

#[test]
fn new_dataset_numbers_rows_when_names_are_partial() {
    let children = vec![("a".to_string(), child(2, 0, Some(&["x1", "x2"]))), ("b".to_string(), child(1, 2, None))];
    let ds = AnnDataSet::new(children, names(&["a", "b"]), "sample").unwrap();
    assert_eq!(ds.obs_names(), names(&["0", "1", "2"]));
}

#[test]
fn stacking_refuses_different_var_names() {
    let mut other = AnnData::empty();
    other.set_var_names(DataFrameIndex::from_names(names(&["g1", "g2", "g3", "g4", "zz"]))).unwrap();
    let children = vec![("a".to_string(), child(3, 0, None)), ("b".to_string(), other)];
    assert_eq!(StackedAnnData::new(children).unwrap_err(), AnnError::DimensionMismatch);
}

#[test]
fn stacking_nothing_is_refused() {
    assert_eq!(StackedAnnData::new(Vec::new()).unwrap_err(), AnnError::MissingKey);
}

#[test]
fn stacked_matrix_reads_across_children() {
    let ds = AnnDataSet::new(two_children(), names(&["a", "b"]), "batch").unwrap();
    let x = ds.read_x().unwrap();
    let firsts: Vec<i64> = x.rows.iter().map(|r| r[0]).collect();
    assert_eq!(firsts, vec![0, 1, 2, 3, 4]);
    let s = ds.read_x_slice(&vec![SelectInfoElem::Index(vec![4, 0, 2]), SelectInfoElem::Index(vec![0])]).unwrap().unwrap();
    assert_eq!(s.rows, vec![vec![4], vec![0], vec![2]]);
    assert_eq!(ds.get_x().unwrap().shape(), (5, 5));
}

#[test]
fn dataset_matrix_is_virtual() {
    let mut ds = AnnDataSet::new(two_children(), names(&["a", "b"]), "batch").unwrap();
    assert_eq!(ds.set_x(ArrayData::new(Encoding::Dense, 5, Vec::new()).unwrap()), Err(AnnError::UnsupportedOnDataset));
    assert_eq!(ds.del_x(), Err(AnnError::UnsupportedOnDataset));
    assert_eq!(ds.set_var_names(DataFrameIndex::empty()), Err(AnnError::UnsupportedOnDataset));
}

#[test]
fn write_select_plans_children_and_annotation() {
    let ds = AnnDataSet::new(two_children(), names(&["a", "b"]), "batch").unwrap();
    let sel = vec![SelectInfoElem::Index(vec![4, 0, 2]), SelectInfoElem::full()];
    let (plan, rows) = ds.write_select(&sel).unwrap();
    assert_eq!(plan.parts.len(), 2);
    assert_eq!(plan.parts[0].to_vec(3), vec![0, 2]);
    assert_eq!(plan.parts[1].to_vec(2), vec![1]);
    // the children give back rows 0, 2, 4; the annotation follows them
    assert_eq!(plan.rows, vec![0, 2, 4]);
    assert_eq!(rows.to_vec(5), vec![0, 2, 4]);
    assert_eq!(plan.mapping.clone().unwrap(), vec![2, 0, 1]);
    let order = plan.order.clone().unwrap();
    assert_eq!(order, vec![1, 2, 0]);
    let picked: Vec<usize> = order.iter().map(|&i| [4, 0, 2][i]).collect();
    assert_eq!(picked, plan.rows);
    // reading the stacked matrix with the selection gives rows 4, 0, 2
    let x = ds.read_x_slice(&sel).unwrap().unwrap();
    let firsts: Vec<i64> = x.rows.iter().map(|r| r[0]).collect();
    assert_eq!(firsts, vec![4, 0, 2]);
}

#[test]
fn write_select_range_keeps_order() {
    let ds = AnnDataSet::new(two_children(), names(&["a", "b"]), "batch").unwrap();
    let sel = vec![SelectInfoElem::full(), SelectInfoElem::full()];
    let (plan, rows) = ds.write_select(&sel).unwrap();
    assert!(plan.order.is_none());
    assert!(plan.mapping.is_none());
    assert_eq!(plan.rows, vec![0, 1, 2, 3, 4]);
    assert!(rows.is_full());
    assert_eq!(ds.write_select(&vec![SelectInfoElem::full()]).unwrap_err(), AnnError::SelectionError);
    assert_eq!(
        ds.write_select(&vec![SelectInfoElem::Index(vec![5]), SelectInfoElem::full()]).unwrap_err(),
        AnnError::SelectionError
    );
}

#[test]
fn locations_are_overridden_by_key() {
    let r = update_locations(
        &names(&["a", "b", "c"]),
        &names(&["pa", "pb", "pc"]),
        &vec![("c".to_string(), "new_c".to_string()), ("z".to_string(), "zz".to_string())],
    );
    assert_eq!(r, names(&["pa", "pb", "new_c"]));
}

#[test]
fn annotation_locations_are_rewritten() {
    let ds = AnnDataSet::new(two_children(), names(&["a.h5ad", "b.h5ad"]), "batch").unwrap();
    let mut anno = ds.into_adata(false).unwrap();
    assert_eq!(update_anndata_locations(&mut anno, &vec![("b".to_string(), "/moved/b.h5ad".to_string())]), Ok(()));
    let (k, p) = stored_locations(&anno).unwrap();
    assert_eq!(k, names(&["a", "b"]));
    assert_eq!(p, names(&["a.h5ad", "/moved/b.h5ad"]));
    let mut plain = AnnData::empty();
    assert_eq!(update_anndata_locations(&mut plain, &Vec::new()), Err(AnnError::MissingKey));
}

#[test]
fn locations_table_errors() {
    assert_eq!(child_locations(&Data::Scalar(1)).unwrap_err(), AnnError::EncodingMismatch);
    let missing = Data::Table(vec![("keys".to_string(), names(&["a"]))]);
    assert_eq!(child_locations(&missing).unwrap_err(), AnnError::MissingKey);
    let uneven = Data::Table(vec![("keys".to_string(), names(&["a"])), ("file_path".to_string(), Vec::new())]);
    assert_eq!(child_locations(&uneven).unwrap_err(), AnnError::EncodingMismatch);
}

#[test]
fn open_restacks_children() {
    let ds = AnnDataSet::new(two_children(), names(&["a.h5ad", "b.h5ad"]), "batch").unwrap();
    let anno = ds.into_adata(false).unwrap();
    let reopened = AnnDataSet::open(anno, two_children(), &vec![("a".to_string(), "/x/a.h5ad".to_string())]).unwrap();
    assert_eq!(reopened.n_obs(), 5);
    assert_eq!(reopened.anndatas().keys(), names(&["a", "b"]));
    let (_, p) = stored_locations(reopened.get_anno()).unwrap();
    assert_eq!(p, names(&["/x/a.h5ad", "b.h5ad"]));
}

#[test]
fn into_adata_copies_matrix() {
    let ds = AnnDataSet::new(two_children(), names(&["a", "b"]), "batch").unwrap();
    let a = ds.into_adata(true).unwrap();
    let x = a.read_x().unwrap();
    assert_eq!(x.rows.len(), 5);
    assert_eq!(x.rows[3], vec![3; 5]);
}

#[test]
fn stacked_children_keep_their_order() {
    let children = vec![
        ("z".to_string(), child(1, 0, None)),
        ("a".to_string(), child(2, 1, None)),
        ("m".to_string(), child(1, 3, None)),
    ];
    let s = StackedAnnData::new(children).unwrap();
    assert_eq!(s.len(), 3);
    assert_eq!(s.keys(), names(&["z", "a", "m"]));
    assert_eq!((s.n_obs(), s.n_vars()), (4, 5));
    let (k, a) = s.child(1).unwrap();
    assert_eq!(k, "a");
    assert_eq!(a.n_obs(), 2);
    assert!(s.child(3).is_none());
    assert!(s.get_obsm().keys().is_empty());
}

#[test]
fn dataset_description() {
    let mut ds = AnnDataSet::new(two_children(), names(&["a.h5ad", "b.h5ad"]), "batch").unwrap();
    let text = ds.describe("set.h5ads");
    assert_eq!(
        text,
        "AnnDataSet object with n_obs x n_vars = 5 x 5 backed at 'set.h5ads'\n\
         contains 2 AnnData objects with keys: 'a', 'b'\n    obs: 'batch'\n    uns: 'AnnDataSet'"
    );
    assert_eq!(ds.anndatas().describe(), "Stacked AnnData objects:\n    obsm: ''");
    assert!(ds.set_x(ArrayData::new(Encoding::Dense, 5, Vec::new()).unwrap()).is_err());
}

#[test]
fn open_with_overrides_needs_the_table() {
    let plain = AnnData::new(5, 5);
    let overrides = vec![("a".to_string(), "/x/a.h5ad".to_string())];
    assert_eq!(AnnDataSet::open(plain, two_children(), &overrides).unwrap_err(), AnnError::MissingKey);
    let ds = AnnDataSet::new(two_children(), names(&["a.h5ad", "b.h5ad"]), "batch").unwrap();
    let anno = ds.into_adata(false).unwrap();
    let mut other = AnnData::empty();
    other.set_var_names(DataFrameIndex::from_names(names(&["q", "r", "s", "t", "u"]))).unwrap();
    let mixed = vec![("a".to_string(), child(3, 0, None)), ("b".to_string(), other)];
    assert_eq!(AnnDataSet::open(anno, mixed, &overrides).unwrap_err(), AnnError::DimensionMismatch);
}

#[test]
fn dataset_forwards_to_its_annotation() {
    let mut ds = AnnDataSet::new(two_children(), names(&["a", "b"]), "batch").unwrap();
    assert_eq!(ds.add_obsm("emb", ArrayData::new(Encoding::Dense, 2, vec![vec![0, 0]; 5]).unwrap()), Ok(()));
    assert_eq!(ds.obsm_keys(), names(&["emb"]));
    assert!(ds.fetch_obsm("emb").is_some());
    assert_eq!(ds.add_varp("c", ArrayData::new(Encoding::Dense, 4, vec![vec![0; 4]; 4]).unwrap()), Err(AnnError::DimensionMismatch));
    ds.add_uns("note", Data::Scalar(3));
    assert!(ds.uns_keys().contains(&"note".to_string()));
    assert_eq!(ds.set_var_column("id", names(&["1", "2", "3", "4", "5"])), Ok(()));
    assert_eq!(ds.var_keys(), names(&["id"]));
    assert_eq!(ds.var_ix(&names(&["g3"])), Ok(vec![2]));
    assert_eq!(ds.obs_column("batch").unwrap().len(), 5);
    ds.del_obsm();
    assert!(ds.obsm_keys().is_empty());
    assert_eq!(ds.set_obs_names(DataFrameIndex::from_range(10, 15)), Ok(()));
    assert_eq!(ds.obs_names()[0], "10");
}

#[test]
fn stacked_obs_columns_concatenate() {
    let mut a = child(2, 0, None);
    a.set_obs_column("cell", names(&["c1", "c2"])).unwrap();
    let mut b = child(1, 2, None);
    b.set_obs_column("cell", names(&["c3"])).unwrap();
    b.set_obs_column("only_b", names(&["z"])).unwrap();
    let s = StackedAnnData::new(vec![("a".to_string(), a), ("b".to_string(), b)]).unwrap();
    assert_eq!(s.obs_column("cell").unwrap(), names(&["c1", "c2", "c3"]));
    assert!(s.obs_column("only_b").is_none());
}

#[test]
fn open_reads_the_table_itself() {
    let none: Vec<(String, String)> = Vec::new();
    assert_eq!(AnnDataSet::open(AnnData::new(5, 5), two_children(), &none).unwrap_err(), AnnError::MissingKey);
    let anno = || AnnDataSet::new(two_children(), names(&["a.h5ad", "b.h5ad"]), "batch").unwrap().into_adata(false).unwrap();
    let swapped = vec![("b".to_string(), child(2, 3, None)), ("a".to_string(), child(3, 0, None))];
    assert_eq!(AnnDataSet::open(anno(), swapped, &none).unwrap_err(), AnnError::MissingKey);
    let smaller = vec![("a".to_string(), child(2, 0, None)), ("b".to_string(), child(2, 3, None))];
    assert_eq!(AnnDataSet::open(anno(), smaller, &none).unwrap_err(), AnnError::DimensionMismatch);
    let twice = vec![("a".to_string(), "x".to_string()), ("a".to_string(), "y".to_string())];
    assert_eq!(AnnDataSet::open(anno(), two_children(), &twice).unwrap_err(), AnnError::DuplicateKey);
    let ds = AnnDataSet::open(anno(), two_children(), &none).unwrap();
    assert_eq!((ds.n_obs(), ds.n_vars()), (5, 5));
    let (_, p) = stored_locations(ds.get_anno()).unwrap();
    assert_eq!(p, names(&["a.h5ad", "b.h5ad"]));
}

#[test]
fn repeated_keys_are_refused() {
    let twice = vec![("a".to_string(), child(1, 0, None)), ("a".to_string(), child(1, 1, None))];
    assert_eq!(StackedAnnData::new(twice).unwrap_err(), AnnError::DuplicateKey);
    let twice = vec![("a".to_string(), child(1, 0, None)), ("a".to_string(), child(1, 1, None))];
    assert_eq!(AnnDataSet::new(twice, names(&["p", "q"]), "batch").unwrap_err(), AnnError::DuplicateKey);
}

#[test]
fn written_children_are_those_with_rows() {
    let ds = AnnDataSet::new(two_children(), names(&["a", "b"]), "batch").unwrap();
    let (plan, _) = ds.write_select(&vec![SelectInfoElem::Index(vec![1, 0]), SelectInfoElem::full()]).unwrap();
    assert_eq!(ds.anndatas().written_children(&plan), vec![true, false]);
    let (all, _) = ds.write_select(&vec![SelectInfoElem::full(), SelectInfoElem::full()]).unwrap();
    assert_eq!(ds.anndatas().written_children(&all), vec![true, true]);
}

#[test]
fn stacked_plan_over_three_children() {
    let children = vec![
        ("a".to_string(), child(3, 0, None)),
        ("b".to_string(), child(2, 3, None)),
        ("c".to_string(), child(4, 5, None)),
    ];
    let ds = AnnDataSet::new(children, names(&["a", "b", "c"]), "batch").unwrap();
    let sel = vec![SelectInfoElem::Index(vec![7, 0, 4]), SelectInfoElem::full()];
    let (plan, rows) = ds.write_select(&sel).unwrap();
    assert_eq!(plan.mapping, Some(vec![2, 0, 1]));
    assert_eq!(plan.order, Some(vec![1, 2, 0]));
    assert_eq!(rows.to_vec(9), vec![0, 4, 7]);
    let x = ds.read_x_slice(&sel).unwrap().unwrap();
    let firsts: Vec<i64> = x.rows.iter().map(|r| r[0]).collect();
    assert_eq!(firsts, vec![7, 0, 4]);
}
