use anndata::{AnnError, Dim};

#[test]
fn try_set_is_idempotent() {
    let mut d = Dim::empty();
    assert!(d.is_empty());
    assert_eq!(d.get(), 0);
    assert_eq!(d.try_set(10), Ok(()));
    assert_eq!(d.get(), 10);
    assert_eq!(d.try_set(10), Ok(()));
    assert_eq!(d.get(), 10);
    assert_eq!(d.try_set(9), Err(AnnError::DimensionMismatch));
    assert_eq!(d.get(), 10);
    assert!(!d.is_empty());
}

#[test]
fn preset_dimension_refuses_other_sizes() {
    let mut d = Dim::new(0);
    assert!(!d.is_empty());
    assert_eq!(d.try_set(1), Err(AnnError::DimensionMismatch));
    assert_eq!(d.try_set(0), Ok(()));
    assert_eq!(d.get(), 0);
}
