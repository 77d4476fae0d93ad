use vstd::prelude::*;

verus! {

/// A strided run of positions: from `start` up to `end` (the length of the
/// axis when `None`), every `step` positions.
#[derive(Debug, Clone, Copy, PartialEq, Eq, Structural)]
pub struct Slice {
    pub start: usize,
    pub end: Option<usize>,
    pub step: usize,
}

/// Selection along one axis: an explicit list of positions, or a slice.
#[derive(Debug)]
pub enum SelectInfoElem {
    Index(Vec<usize>),
    Slice(Slice),
}

/// First position of a slice over an axis of length `n`.
pub open spec fn slice_lo(s: Slice, n: nat) -> nat {
    if s.start > n {
        n
    } else {
        s.start as nat
    }
}

/// End (exclusive) of a slice over an axis of length `n`.
pub open spec fn slice_hi(s: Slice, n: nat) -> nat {
    let e: nat = match s.end {
        Some(e) => e as nat,
        None => n,
    };
    if e > n {
        n
    } else {
        e
    }
}

/// Number of positions that a slice picks on an axis of length `n`.
pub open spec fn slice_len(s: Slice, n: nat) -> nat {
    if slice_hi(s, n) > slice_lo(s, n) && s.step > 0 {
        ((slice_hi(s, n) - slice_lo(s, n) - 1) as nat / s.step as nat + 1) as nat
    } else {
        0
    }
}

/// The positions of a slice on an axis of length `n`, in order.
pub open spec fn slice_indices(s: Slice, n: nat) -> Seq<int> {
    Seq::new(slice_len(s, n), |i: int| slice_lo(s, n) + i * s.step)
}

impl SelectInfoElem {
    /// The selection can be applied to an axis of length `n`.
    pub open spec fn valid(&self, n: nat) -> bool {
        match self {
            SelectInfoElem::Index(v) => forall|i: int| 0 <= i < v@.len() ==> v@[i] < n,
            SelectInfoElem::Slice(s) => s.step > 0,
        }
    }

    /// The positions picked on an axis of length `n`, in the order in which
    /// they are returned.
    pub open spec fn indices(&self, n: nat) -> Seq<int> {
        match self {
            SelectInfoElem::Index(v) => Seq::new(v@.len(), |i: int| v@[i] as int),
            SelectInfoElem::Slice(s) => slice_indices(*s, n),
        }
    }

    pub open spec fn spec_is_full(&self) -> bool {
        match self {
            SelectInfoElem::Slice(s) => s.start == 0 && s.end is None && s.step == 1,
            _ => false,
        }
    }

    /// The selection of a whole axis.
    pub fn full() -> (r: Self)
        ensures
            r.spec_is_full(),
    {
        SelectInfoElem::Slice(Slice { start: 0, end: None, step: 1 })
    }

    pub fn is_full(&self) -> (r: bool)
        ensures
            r == self.spec_is_full(),
    {
        match self {
            SelectInfoElem::Slice(s) => s.start == 0 && s.end.is_none() && s.step == 1,
            _ => false,
        }
    }

    /// The two selections pick the same positions on every axis.
    pub open spec fn same(&self, other: &SelectInfoElem) -> bool {
        match (self, other) {
            (SelectInfoElem::Index(a), SelectInfoElem::Index(b)) => a@ == b@,
            (SelectInfoElem::Slice(a), SelectInfoElem::Slice(b)) => a == b,
            _ => false,
        }
    }

    pub fn clone_sel(&self) -> (r: Self)
        ensures
            r.same(self),
            forall|n: nat| r.valid(n) == self.valid(n) && r.indices(n) == self.indices(n),
            r.spec_is_full() == self.spec_is_full(),
    {
        match self {
            SelectInfoElem::Index(v) => SelectInfoElem::Index(copy_usizes(v)),
            SelectInfoElem::Slice(s) => SelectInfoElem::Slice(*s),
        }
    }

    /// Whether the selection can be applied to an axis of length `n`.
    pub fn is_valid(&self, n: usize) -> (r: bool)
        ensures
            r == self.valid(n as nat),
    {
        match self {
            SelectInfoElem::Index(v) => all_below(v, n),
            SelectInfoElem::Slice(s) => s.step > 0,
        }
    }

    /// Number of positions picked on an axis of length `n`.
    pub fn len(&self, n: usize) -> (r: usize)
        requires
            self.valid(n as nat),
        ensures
            r == self.indices(n as nat).len(),
    {
        match self {
            SelectInfoElem::Index(v) => v.len(),
            SelectInfoElem::Slice(s) => {
                let (lo, hi) = slice_bounds(s, n);
                if hi > lo {
                    (hi - lo - 1) / s.step + 1
                } else {
                    0
                }
            },
        }
    }

    /// The picked positions on an axis of length `n`.
    pub fn to_vec(&self, n: usize) -> (r: Vec<usize>)
        requires
            self.valid(n as nat),
        ensures
            r@.len() == self.indices(n as nat).len(),
            forall|i: int| 0 <= i < r@.len() ==> r@[i] as int == self.indices(n as nat)[i],
            forall|i: int| 0 <= i < r@.len() ==> r@[i] < n,
    {
        match self {
            SelectInfoElem::Index(v) => copy_usizes(v),
            SelectInfoElem::Slice(s) => {
                let (lo, hi) = slice_bounds(s, n);
                let len = self.len(n);
                let step = s.step;
                let mut out: Vec<usize> = Vec::new();
                let mut k: usize = 0;
                let mut cur: usize = lo;
                proof {
                    if len > 0 {
                        lemma_slice_step_bound(0, (hi - lo) as nat, step as nat);
                    }
                }
                while k < len
                    invariant
                        len == slice_len(*s, n as nat),
                        lo == slice_lo(*s, n as nat),
                        hi == slice_hi(*s, n as nat),
                        step == s.step,
                        step > 0,
                        lo <= n,
                        hi <= n,
                        len > 0 ==> lo < hi,
                        k <= len,
                        k < len ==> cur == lo + k * step,
                        k < len ==> cur < hi,
                        out@.len() == k,
                        forall|j: int| 0 <= j < k ==> out@[j] as int == lo + j * step,
                        forall|j: int| 0 <= j < k ==> out@[j] < n,
                    decreases len - k,
                {
                    out.push(cur);
                    k = k + 1;
                    if k < len {
                        proof {
                            lemma_slice_step_bound(k as nat, (hi - lo) as nat, step as nat);
                            assert(lo + k * step == cur + step) by (nonlinear_arith)
                                requires
                                    cur == lo + (k - 1) * step,
                            ;
                        }
                        cur = cur + step;
                    }
                }
                out
            },
        }
    }
}

/// A slice's first position and end, clamped to an axis of length `n`.
pub fn slice_bounds(s: &Slice, n: usize) -> (r: (usize, usize))
    ensures
        r.0 == slice_lo(*s, n as nat),
        r.1 == slice_hi(*s, n as nat),
        r.0 <= n,
        r.1 <= n,
{
    let lo = if s.start > n {
        n
    } else {
        s.start
    };
    let e = match s.end {
        Some(e) => e,
        None => n,
    };
    let hi = if e > n {
        n
    } else {
        e
    };
    (lo, hi)
}

/// Positions before the end of a slice are inside it.
pub proof fn lemma_slice_step_bound(k: nat, d: nat, step: nat)
    requires
        step > 0,
        d > 0,
        k <= (d - 1) as nat / step,
    ensures
        k * step < d,
{
    let q = (d - 1) as nat / step;
    vstd::arithmetic::div_mod::lemma_fundamental_div_mod((d - 1) as int, step as int);
    vstd::arithmetic::mul::lemma_mul_inequality(k as int, q as int, step as int);
    assert(q * step <= d - 1) by (nonlinear_arith)
        requires
            (d - 1) == step * q + (d - 1) % (step as int),
            0 <= (d - 1) % (step as int),
    ;
}

/// Whether every position is below `n`.
pub fn all_below(v: &Vec<usize>, n: usize) -> (r: bool)
    ensures
        r == forall|i: int| 0 <= i < v@.len() ==> v@[i] < n,
{
    let mut i: usize = 0;
    while i < v.len()
        invariant
            i <= v@.len(),
            forall|t: int| 0 <= t < i ==> v@[t] < n,
        decreases v@.len() - i,
    {
        if v[i] >= n {
            return false;
        }
        i = i + 1;
    }
    true
}

/// A valid selection picks positions inside the axis.
pub proof fn lemma_indices_in_bounds(sel: &SelectInfoElem, n: nat)
    requires
        sel.valid(n),
    ensures
        forall|i: int| 0 <= i < sel.indices(n).len() ==> 0 <= #[trigger] sel.indices(n)[i] < n,
{
    if let SelectInfoElem::Slice(s) = sel {
        let lo = slice_lo(*s, n);
        let hi = slice_hi(*s, n);
        assert forall|i: int| 0 <= i < sel.indices(n).len() implies 0 <= #[trigger] sel.indices(
            n,
        )[i] < n by {
            lemma_slice_step_bound(i as nat, (hi - lo) as nat, s.step as nat);
            assert(0 <= i * s.step) by (nonlinear_arith)
                requires
                    0 <= i,
            ;
        }
    }
}

/// A copy of a vector of positions.
pub fn copy_usizes(v: &Vec<usize>) -> (r: Vec<usize>)
    ensures
        r@ == v@,
{
    let mut out: Vec<usize> = Vec::new();
    let mut i: usize = 0;
    while i < v.len()
        invariant
            i <= v@.len(),
            out@ == v@.subrange(0, i as int),
        decreases v@.len() - i,
    {
        out.push(v[i]);
        i = i + 1;
    }
    assert(out@ == v@.subrange(0, v@.len() as int));
    out
}

/// The full selection picks every position of the axis, in order.
pub proof fn lemma_full_indices(sel: &SelectInfoElem, n: nat)
    requires
        sel.spec_is_full(),
    ensures
        sel.valid(n),
        sel.indices(n) == Seq::new(n, |i: int| i),
{
    if let SelectInfoElem::Slice(s) = sel {
        assert(slice_lo(*s, n) == 0);
        assert(slice_hi(*s, n) == n);
        if n > 0 {
            assert(((n - 1) as nat / 1nat) == n - 1);
        }
        assert(slice_len(*s, n) == n);
        assert(sel.indices(n) =~= Seq::new(n, |i: int| i));
    }
}

} // verus!
