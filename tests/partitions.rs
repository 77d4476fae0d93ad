use anndata::{reverse_mapping, SelectInfoElem, Slice, VecVecIndex};

fn locals(sel: &SelectInfoElem, n: usize) -> Vec<usize> {
    sel.to_vec(n)
}

#[test]
fn locate_finds_partition_and_local_row() {
    let index = VecVecIndex::new(&vec![3, 2, 4]);
    assert_eq!(index.len(), 9);
    assert_eq!(index.n_partitions(), 3);
    assert_eq!(index.locate(0), (0, 0));
    assert_eq!(index.locate(2), (0, 2));
    assert_eq!(index.locate(3), (1, 0));
    assert_eq!(index.locate(4), (1, 1));
    assert_eq!(index.locate(5), (2, 0));
    assert_eq!(index.locate(8), (2, 3));
}

#[test]
fn locate_skips_empty_partitions() {
    let index = VecVecIndex::new(&vec![2, 0, 0, 3]);
    assert_eq!(index.locate(1), (0, 1));
    assert_eq!(index.locate(2), (3, 0));
    assert_eq!(index.locate(4), (3, 2));
}

#[test]
fn split_select_scattered_rows_gives_map() {
    // partitions of sizes 3, 2 and 4; global rows 7, 0, 4
    let index = VecVecIndex::new(&vec![3, 2, 4]);
    let (parts, mapping) = index.split_select(&SelectInfoElem::Index(vec![7, 0, 4]));
    assert_eq!(parts.len(), 3);
    assert_eq!(locals(&parts[0], 3), vec![0]);
    assert_eq!(locals(&parts[1], 2), vec![1]);
    assert_eq!(locals(&parts[2], 4), vec![2]);
    // row i of the selection is row m[i] of the concatenation (0, 4, 7)
    assert_eq!(mapping, Some(vec![2, 0, 1]));
}

#[test]
fn split_select_contiguous_range_needs_no_map() {
    let index = VecVecIndex::new(&vec![3, 2, 4]);
    let sel = SelectInfoElem::Slice(Slice { start: 2, end: Some(7), step: 1 });
    let (parts, mapping) = index.split_select(&sel);
    assert!(mapping.is_none());
    assert_eq!(locals(&parts[0], 3), vec![2]);
    assert_eq!(locals(&parts[1], 2), vec![0, 1]);
    assert_eq!(locals(&parts[2], 4), vec![0, 1]);
}

#[test]
fn split_select_full_range_covers_everything() {
    let index = VecVecIndex::new(&vec![3, 2, 4]);
    let (parts, mapping) = index.split_select(&SelectInfoElem::full());
    assert!(mapping.is_none());
    assert_eq!(locals(&parts[0], 3), vec![0, 1, 2]);
    assert_eq!(locals(&parts[1], 2), vec![0, 1]);
    assert_eq!(locals(&parts[2], 4), vec![0, 1, 2, 3]);
}

#[test]
fn split_select_empty_range() {
    let index = VecVecIndex::new(&vec![3, 2, 4]);
    let sel = SelectInfoElem::Slice(Slice { start: 6, end: Some(2), step: 1 });
    let (parts, mapping) = index.split_select(&sel);
    assert!(mapping.is_none());
    for (p, n) in [3usize, 2, 4].iter().enumerate() {
        assert!(locals(&parts[p], *n).is_empty());
    }
}

#[test]
fn split_select_sorted_indices_need_no_map() {
    let index = VecVecIndex::new(&vec![3, 2, 4]);
    let (parts, mapping) = index.split_select(&SelectInfoElem::Index(vec![1, 3, 8]));
    assert!(mapping.is_none());
    assert_eq!(locals(&parts[0], 3), vec![1]);
    assert_eq!(locals(&parts[1], 2), vec![0]);
    assert_eq!(locals(&parts[2], 4), vec![3]);
}

#[test]
fn split_select_strided_slice() {
    let index = VecVecIndex::new(&vec![3, 2, 4]);
    let sel = SelectInfoElem::Slice(Slice { start: 0, end: None, step: 4 });
    let (parts, mapping) = index.split_select(&sel);
    // rows 0, 4, 8
    assert!(mapping.is_none());
    assert_eq!(locals(&parts[0], 3), vec![0]);
    assert_eq!(locals(&parts[1], 2), vec![1]);
    assert_eq!(locals(&parts[2], 4), vec![3]);
}

#[test]
fn split_select_map_reorders_concatenation() {
    let index = VecVecIndex::new(&vec![3, 2, 4]);
    let sel = vec![8, 2, 3, 0, 5, 4];
    let (parts, mapping) = index.split_select(&SelectInfoElem::Index(sel.clone()));
    let mut concat = Vec::new();
    for (p, n) in [3usize, 2, 4].iter().enumerate() {
        for l in locals(&parts[p], *n) {
            concat.push(index.offset(p) + l);
        }
    }
    let m = mapping.expect("unsorted selection needs a map");
    for i in 0..sel.len() {
        assert_eq!(concat[m[i]], sel[i]);
    }
}

#[test]
fn split_select_repeated_rows() {
    let index = VecVecIndex::new(&vec![2, 2]);
    let (parts, mapping) = index.split_select(&SelectInfoElem::Index(vec![3, 1, 3]));
    assert_eq!(locals(&parts[0], 2), vec![1]);
    assert_eq!(locals(&parts[1], 2), vec![1, 1]);
    assert_eq!(mapping, Some(vec![1, 0, 2]));
}

#[test]
fn reverse_mapping_inverts_permutation() {
    let m = vec![2, 0, 3, 1];
    let r = reverse_mapping(&m, 4);
    assert_eq!(r, vec![1, 3, 0, 2]);
    for i in 0..m.len() {
        assert_eq!(r[m[i]], i);
    }
}

#[test]
fn reverse_mapping_fills_unmapped_with_zero() {
    let r = reverse_mapping(&[3, 1], 5);
    assert_eq!(r, vec![0, 1, 0, 0, 0]);
}

#[test]
fn reverse_mapping_keeps_last_of_repeats() {
    let r = reverse_mapping(&[1, 1, 0], 2);
    assert_eq!(r, vec![2, 1]);
}

#[test]
fn selection_lengths_and_positions() {
    let s = SelectInfoElem::Slice(Slice { start: 1, end: Some(8), step: 3 });
    assert_eq!(s.len(10), 3);
    assert_eq!(s.to_vec(10), vec![1, 4, 7]);
    assert_eq!(s.to_vec(5), vec![1, 4]);
    let full = SelectInfoElem::full();
    assert!(full.is_full());
    assert_eq!(full.to_vec(3), vec![0, 1, 2]);
    assert!(!SelectInfoElem::Index(vec![0]).is_full());
    assert!(SelectInfoElem::Index(vec![0, 2]).is_valid(3));
    assert!(!SelectInfoElem::Index(vec![0, 3]).is_valid(3));
    assert!(!SelectInfoElem::Slice(Slice { start: 0, end: None, step: 0 }).is_valid(3));
}
