use vstd::prelude::*;

use crate::error::AnnError;

verus! {

/// The outcome of setting a dimension cell that holds `d` to `n`: the new
/// content of the cell and whether the request was accepted.
pub open spec fn try_set_spec(d: Option<usize>, n: usize) -> (Option<usize>, bool) {
    match d {
        None => (Some(n), true),
        Some(m) => if m == n { (d, true) } else { (d, false) },
    }
}

/// Nullable dimension. `None` means that the dimension is not set yet; once
/// set, a dimension can only be set again to the same value.
#[derive(Debug, Clone, Copy, PartialEq, Eq, Structural)]
pub struct Dim {
    size: Option<usize>,
}

impl View for Dim {
    type V = Option<usize>;

    closed spec fn view(&self) -> Option<usize> {
        self.size
    }
}

impl Dim {
    pub fn empty() -> (r: Self)
        ensures
            r@ is None,
    {
        Dim { size: None }
    }

    pub fn new(n: usize) -> (r: Self)
        ensures
            r@ == Some(n),
    {
        Dim { size: Some(n) }
    }

    pub fn is_empty(&self) -> (r: bool)
        ensures
            r == (self@ is None),
    {
        self.size.is_none()
    }

    /// The size, or 0 when it is not set.
    pub fn get(&self) -> (r: usize)
        ensures
            r == match self@ {
                Some(n) => n,
                None => 0usize,
            },
    {
        match self.size {
            Some(n) => n,
            None => 0,
        }
    }

    /// Sets the dimension to `n`; fails when it already holds another size.
    pub fn try_set(&mut self, n: usize) -> (r: Result<(), AnnError>)
        ensures
            final(self)@ == try_set_spec(old(self)@, n).0,
            r is Ok <==> try_set_spec(old(self)@, n).1,
            r is Err ==> r == Err::<(), AnnError>(AnnError::DimensionMismatch),
    {
        match self.size {
            Some(m) => {
                if m != n {
                    return Err(AnnError::DimensionMismatch);
                }
            },
            None => {
                self.size = Some(n);
            },
        }
        Ok(())
    }

    /// The size in decimal, or `None` when it is not set.
    pub fn describe(&self) -> (r: String)
        ensures
            r@ == match self@ {
                Some(n) => crate::index::dec(n as nat),
                None => "None"@,
            },
    {
        match self.size {
            Some(n) => crate::index::decimal(n),
            None => "None".to_owned(),
        }
    }

    /// Overwrites the dimension, for use after a subset has recomputed it.
    pub(crate) fn set(&mut self, n: usize)
        ensures
            final(self)@ == Some(n),
    {
        self.size = Some(n);
    }
}

/// Setting a dimension is idempotent: once `try_set(n)` succeeded, setting
/// `n` again succeeds and changes nothing, while any other size is refused
/// and leaves the cell as it is.
pub proof fn lemma_try_set_idempotent(d: Option<usize>, n: usize, m: usize)
    requires
        try_set_spec(d, n).1,
    ensures
        try_set_spec(d, n).0 == Some(n),
        try_set_spec(try_set_spec(d, n).0, n) == (try_set_spec(d, n).0, true),
        m != n ==> try_set_spec(try_set_spec(d, n).0, m) == (Some(n), false),
{
}

} // verus!
