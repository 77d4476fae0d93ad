use vstd::prelude::*;

use crate::selection::{slice_bounds, slice_hi, slice_lo, SelectInfoElem, Slice};

verus! {

/// Sum of the first `k` partition sizes.
pub open spec fn size_prefix(sizes: Seq<usize>, k: int) -> int
    decreases k,
{
    if k <= 0 {
        0
    } else {
        size_prefix(sizes, k - 1) + sizes[k - 1]
    }
}

/// Offsets that start at zero and never decrease.
pub open spec fn offsets_wf(offs: Seq<usize>) -> bool {
    &&& offs.len() >= 1
    &&& offs[0] == 0
    &&& forall|i: int, j: int| 0 <= i <= j < offs.len() ==> offs[i] <= offs[j]
}

pub open spec fn n_parts(offs: Seq<usize>) -> int {
    offs.len() - 1
}

pub open spec fn total_len(offs: Seq<usize>) -> int {
    offs.last() as int
}

pub open spec fn part_size(offs: Seq<usize>, p: int) -> nat {
    (offs[p + 1] - offs[p]) as nat
}

/// Partition `p` holds the global position `g`.
pub open spec fn locates(offs: Seq<usize>, p: int, g: int) -> bool {
    0 <= p < n_parts(offs) && offs[p] <= g < offs[p + 1]
}

/// Global positions that the selection of partition `p` reads, in order.
pub open spec fn part_globals(offs: Seq<usize>, parts: Seq<SelectInfoElem>, p: int) -> Seq<int> {
    let loc = parts[p].indices(part_size(offs, p));
    Seq::new(loc.len(), |i: int| loc[i] + offs[p])
}

/// Global positions read by the first `k` partitions, concatenated in
/// partition order.
pub open spec fn concat_globals(offs: Seq<usize>, parts: Seq<SelectInfoElem>, k: int) -> Seq<
    int,
>
    decreases k,
{
    if k <= 0 {
        Seq::empty()
    } else {
        concat_globals(offs, parts, k - 1) + part_globals(offs, parts, k - 1)
    }
}

/// Number of positions read by the first `k` partitions.
pub open spec fn globals_prefix(offs: Seq<usize>, parts: Seq<SelectInfoElem>, k: int) -> int
    decreases k,
{
    if k <= 0 {
        0
    } else {
        globals_prefix(offs, parts, k - 1) + part_globals(offs, parts, k - 1).len()
    }
}

/// The rows read partition by partition, concatenated in partition order.
pub open spec fn split_concat(offs: Seq<usize>, parts: Seq<SelectInfoElem>) -> Seq<int> {
    concat_globals(offs, parts, n_parts(offs))
}

/// `m` maps each position of `g` to a distinct position of `c` holding the
/// same value.
pub open spec fn reorders(c: Seq<int>, g: Seq<int>, m: Seq<usize>) -> bool {
    &&& c.len() == g.len()
    &&& m.len() == g.len()
    &&& forall|i: int| 0 <= i < m.len() ==> #[trigger] m[i] < g.len() && c[m[i] as int] == g[i]
    &&& forall|i: int, j: int| 0 <= i < j < m.len() ==> m[i] != m[j]
}

/// The rows of `g[..k]` that partition `p` holds, in the order of `g`.
pub open spec fn part_filter(offs: Seq<usize>, g: Seq<int>, p: int, k: int) -> Seq<int>
    decreases k,
{
    if k <= 0 {
        Seq::empty()
    } else if locates(offs, p, g[k - 1]) {
        part_filter(offs, g, p, k - 1).push(g[k - 1])
    } else {
        part_filter(offs, g, p, k - 1)
    }
}

/// The outcome of splitting a selection `g` over partitions: every
/// partition reads inside itself; the concatenated reads are `g` itself
/// when no map is returned, and `g` after reordering by the map otherwise.
pub open spec fn split_ok(
    offs: Seq<usize>,
    g: Seq<int>,
    parts: Seq<SelectInfoElem>,
    mapping: Option<Seq<usize>>,
) -> bool {
    &&& parts.len() == n_parts(offs)
    &&& forall|p: int| 0 <= p < n_parts(offs) ==> #[trigger] parts[p].valid(part_size(offs, p))
    &&& match mapping {
        None => split_concat(offs, parts) == g,
        Some(m) => reorders(split_concat(offs, parts), g, m),
    }
}

/// Concatenation plan of stacked partitions: `offsets[p]` is the global
/// position of the first row of partition `p`, and the last offset is the
/// total number of rows.
#[derive(Debug)]
pub struct VecVecIndex {
    offsets: Vec<usize>,
}

impl View for VecVecIndex {
    type V = Seq<usize>;

    closed spec fn view(&self) -> Seq<usize> {
        self.offsets@
    }
}

impl VecVecIndex {
    /// The plan for partitions of the given sizes, in order.
    pub fn new(sizes: &Vec<usize>) -> (r: Self)
        requires
            size_prefix(sizes@, sizes@.len() as int) <= usize::MAX,
        ensures
            offsets_wf(r@),
            r@.len() == sizes@.len() + 1,
            forall|p: int| 0 <= p <= sizes@.len() ==> r@[p] == size_prefix(sizes@, p),
    {
        let mut offsets: Vec<usize> = Vec::new();
        offsets.push(0);
        let mut i: usize = 0;
        while i < sizes.len()
            invariant
                i <= sizes@.len(),
                size_prefix(sizes@, sizes@.len() as int) <= usize::MAX,
                offsets@.len() == i + 1,
                offsets_wf(offsets@),
                forall|p: int| 0 <= p <= i ==> offsets@[p] == size_prefix(sizes@, p),
            decreases sizes@.len() - i,
        {
            proof {
                lemma_size_prefix_mono(sizes@, i as int + 1, sizes@.len() as int);
            }
            let next = offsets[i] + sizes[i];
            offsets.push(next);
            i = i + 1;
        }
        VecVecIndex { offsets }
    }

    /// Total number of rows.
    pub fn len(&self) -> (r: usize)
        requires
            offsets_wf(self@),
        ensures
            r == total_len(self@),
    {
        self.offsets[self.offsets.len() - 1]
    }

    pub fn n_partitions(&self) -> (r: usize)
        requires
            offsets_wf(self@),
        ensures
            r == n_parts(self@),
    {
        self.offsets.len() - 1
    }

    /// Global position of the first row of partition `p`.
    pub fn offset(&self, p: usize) -> (r: usize)
        requires
            p < self@.len(),
        ensures
            r == self@[p as int],
    {
        self.offsets[p]
    }

    /// The partition that holds global row `g`, and the row's position in it.
    pub fn locate(&self, g: usize) -> (r: (usize, usize))
        requires
            offsets_wf(self@),
            g < total_len(self@),
        ensures
            locates(self@, r.0 as int, g as int),
            r.1 == g - self@[r.0 as int],
    {
        let mut lo: usize = 0;
        let mut hi: usize = self.offsets.len() - 1;
        while hi - lo > 1
            invariant
                offsets_wf(self@),
                lo < hi < self@.len(),
                self@[lo as int] <= g < self@[hi as int],
            decreases hi - lo,
        {
            let mid = lo + (hi - lo) / 2;
            if self.offsets[mid] <= g {
                lo = mid;
            } else {
                hi = mid;
            }
        }
        (lo, g - self.offsets[lo])
    }

    /// Splits a selection of global rows into one selection per partition.
    /// A contiguous range is cut into one range per partition and needs no
    /// reordering. Otherwise each row goes to its partition in the order of
    /// the selection; when the concatenated partition reads do not come in
    /// the order of the selection, the map `m` returned says that row `i` of
    /// the selection is row `m[i]` of the concatenation.
    pub fn split_select(&self, sel: &SelectInfoElem) -> (r: (Vec<SelectInfoElem>, Option<Vec<usize>>))
        requires
            offsets_wf(self@),
            sel.valid(total_len(self@) as nat),
        ensures
            split_ok(
                self@,
                sel.indices(total_len(self@) as nat),
                r.0@,
                match r.1 {
                    Some(m) => Some(m@),
                    None => None,
                },
            ),
            (sel matches SelectInfoElem::Slice(s) && s.step == 1) ==> r.1 is None,
            !(sel matches SelectInfoElem::Slice(s) && s.step == 1) ==> forall|p: int|
                0 <= p < n_parts(self@) ==> #[trigger] part_globals(self@, r.0@, p) == part_filter(
                    self@,
                    sel.indices(total_len(self@) as nat),
                    p,
                    sel.indices(total_len(self@) as nat).len() as int,
                ),
    {
        match sel {
            SelectInfoElem::Slice(s) => {
                if s.step == 1 {
                    return (self.split_range(s), None);
                }
            },
            _ => {},
        }
        self.split_scattered(sel)
    }

    /// Cuts a contiguous range into one range per partition.
    fn split_range(&self, s: &Slice) -> (r: Vec<SelectInfoElem>)
        requires
            offsets_wf(self@),
            s.step == 1,
        ensures
            split_ok(self@, SelectInfoElem::Slice(*s).indices(total_len(self@) as nat), r@, None),
    {
        let n = self.len();
        let ghost offs = self@;
        let ghost g = SelectInfoElem::Slice(*s).indices(n as nat);
        let (a, b0) = slice_bounds(s, n);
        let b = if b0 < a {
            a
        } else {
            b0
        };
        proof {
            lemma_unit_slice(*s, n as nat);
            assert(g =~= Seq::new((b - a) as nat, |i: int| a + i));
        }
        let np = self.offsets.len() - 1;
        let mut parts: Vec<SelectInfoElem> = Vec::new();
        let mut p: usize = 0;
        while p < np
            invariant
                offsets_wf(offs),
                offs == self@,
                np == n_parts(offs),
                n == total_len(offs),
                a <= b <= n,
                p <= np,
                parts@.len() == p,
                forall|q: int| 0 <= q < p ==> #[trigger] parts@[q].valid(part_size(offs, q)),
                concat_globals(offs, parts@, p as int) == Seq::new(
                    (clamp(offs[p as int] as int, a as int, b as int) - a) as nat,
                    |i: int| a + i,
                ),
            decreases np - p,
        {
            let lo_p = self.offsets[p];
            let hi_p = self.offsets[p + 1];
            let st = if a > lo_p {
                a
            } else {
                lo_p
            };
            let en = if b < hi_p {
                b
            } else {
                hi_p
            };
            let ghost c0 = clamp(offs[p as int] as int, a as int, b as int);
            let ghost c1 = clamp(offs[p + 1] as int, a as int, b as int);
            let ghost old_parts = parts@;
            if st < en {
                let local = Slice { start: st - lo_p, end: Some(en - lo_p), step: 1 };
                parts.push(SelectInfoElem::Slice(local));
                proof {
                    lemma_unit_slice(local, (hi_p - lo_p) as nat);
                    assert(st == c0 && en == c1);
                }
            } else {
                parts.push(SelectInfoElem::Index(Vec::new()));
                proof {
                    assert(c0 == c1);
                }
            }
            proof {
                assert(part_globals(offs, parts@, p as int) =~= Seq::new(
                    (c1 - c0) as nat,
                    |i: int| c0 + i,
                ));
                lemma_concat_globals_frame(offs, old_parts, parts@, p as int);
                let c = concat_globals(offs, parts@, p as int);
                let d = part_globals(offs, parts@, p as int);
                assert(concat_globals(offs, parts@, p as int + 1) == c + d);
                assert(c + d =~= Seq::new(
                    (c1 - a) as nat,
                    |i: int| a + i,
                ));
            }
            p = p + 1;
        }
        proof {
            assert(clamp(offs[np as int] as int, a as int, b as int) == b);
        }
        parts
    }

    /// Sends each selected row to its partition, in the order of the
    /// selection, and builds the map back to the selection's order.
    fn split_scattered(&self, sel: &SelectInfoElem) -> (r: (Vec<SelectInfoElem>, Option<Vec<usize>>))
        requires
            offsets_wf(self@),
            sel.valid(total_len(self@) as nat),
        ensures
            forall|p: int|
                0 <= p < n_parts(self@) ==> #[trigger] part_globals(self@, r.0@, p) == part_filter(
                    self@,
                    sel.indices(total_len(self@) as nat),
                    p,
                    sel.indices(total_len(self@) as nat).len() as int,
                ),
            split_ok(
                self@,
                sel.indices(total_len(self@) as nat),
                r.0@,
                match r.1 {
                    Some(m) => Some(m@),
                    None => None,
                },
            ),
    {
        let n = self.len();
        let ghost offs = self@;
        let ghost gs = sel.indices(n as nat);
        let g = sel.to_vec(n);
        let np = self.offsets.len() - 1;
        let mut locals: Vec<Vec<usize>> = Vec::new();
        let mut q: usize = 0;
        while q < np
            invariant
                q <= np,
                locals@.len() == q,
                forall|t: int| 0 <= t < q ==> (#[trigger] locals@[t])@.len() == 0,
            decreases np - q,
        {
            locals.push(Vec::new());
            q = q + 1;
        }
        let mut pidx: Vec<usize> = Vec::new();
        let mut rank: Vec<usize> = Vec::new();
        let mut i: usize = 0;
        proof {
            lemma_lens_sum_zero(locals@, np as int);
        }
        while i < g.len()
            invariant
                offsets_wf(offs),
                offs == self@,
                np == n_parts(offs),
                n == total_len(offs),
                g@.len() == gs.len(),
                forall|t: int| 0 <= t < g@.len() ==> g@[t] as int == gs[t],
                forall|t: int| 0 <= t < g@.len() ==> g@[t] < n,
                i <= g@.len(),
                locals@.len() == np,
                pidx@.len() == i,
                rank@.len() == i,
                lens_sum(locals@, np as int) == i,
                forall|p: int, t: int|
                    0 <= p < np && 0 <= t < locals@[p]@.len() ==> #[trigger] locals@[p]@[t]
                        < part_size(offs, p),
                forall|t: int|
                    0 <= t < i ==> {
                        &&& #[trigger] pidx@[t] < np
                        &&& rank@[t] < locals@[pidx@[t] as int]@.len()
                        &&& locals@[pidx@[t] as int]@[rank@[t] as int] + offs[pidx@[t] as int]
                            == gs[t]
                    },
                forall|t: int, u: int|
                    0 <= t < u < i && pidx@[t] == pidx@[u] ==> rank@[t] < rank@[u],
                forall|q: int|
                    0 <= q < np ==> Seq::new(locals@[q]@.len(), |t: int| locals@[q]@[t] + offs[q])
                        == #[trigger] part_filter(offs, gs, q, i as int),
            decreases g@.len() - i,
        {
            let (p, l) = self.locate(g[i]);
            let ghost before = locals@;
            let rk = locals[p].len();
            pidx.push(p);
            rank.push(rk);
            locals[p].push(l);
            proof {
                assert(locals@ =~= before.update(p as int, locals@[p as int]));
                lemma_lens_sum_push(before, locals@, p as int, np as int);
                assert forall|q: int| 0 <= q < np implies Seq::new(
                    locals@[q]@.len(),
                    |t: int| locals@[q]@[t] + offs[q],
                ) == #[trigger] part_filter(offs, gs, q, i as int + 1) by {
                    let old_q = Seq::new(before[q]@.len(), |t: int| before[q]@[t] + offs[q]);
                    assert(old_q == part_filter(offs, gs, q, i as int));
                    if q == p {
                        assert(locates(offs, q, gs[i as int]));
                        assert(Seq::new(locals@[q]@.len(), |t: int| locals@[q]@[t] + offs[q]) =~= old_q.push(
                            gs[i as int],
                        ));
                    } else {
                        assert(!locates(offs, q, gs[i as int])) by {
                            if locates(offs, q, gs[i as int]) {
                                if q < p {
                                    assert(offs[q + 1] <= offs[p as int]);
                                } else {
                                    assert(offs[p + 1] <= offs[q]);
                                }
                            }
                        }
                        assert(locals@[q] == before[q]);
                    }
                }
            }
            i = i + 1;
        }
        // The selection of each partition.
        let mut parts: Vec<SelectInfoElem> = Vec::new();
        let mut q: usize = 0;
        while q < np
            invariant
                q <= np,
                locals@.len() == np,
                parts@.len() == q,
                forall|t: int|
                    0 <= t < q ==> (#[trigger] parts@[t] matches SelectInfoElem::Index(v) && v@
                        == locals@[t]@),
            decreases np - q,
        {
            parts.push(SelectInfoElem::Index(crate::selection::copy_usizes(&locals[q])));
            q = q + 1;
        }
        let ghost ps = parts@;
        assert forall|p: int| 0 <= p < np implies part_globals(offs, ps, p)
            =~= Seq::new(locals@[p]@.len(), |t: int| locals@[p]@[t] + offs[p]) by {}
        assert forall|p: int| 0 <= p < np implies #[trigger] ps[p].valid(part_size(offs, p)) by {}
        // Where the rows of each partition start in the concatenation.
        let glen = g.len();
        let mut base: Vec<usize> = Vec::new();
        base.push(0);
        let mut q: usize = 0;
        proof {
            lemma_prefix_le_sum(locals@, offs, ps, 0, np as int);
        }
        while q < np
            invariant
                q <= np,
                locals@.len() == np,
                np == n_parts(offs),
                offsets_wf(offs),
                ps.len() == np,
                forall|p: int| 0 <= p < np ==> part_globals(offs, ps, p).len() == locals@[p]@.len(),
                lens_sum(locals@, np as int) == g@.len(),
                glen == g@.len(),
                base@.len() == q + 1,
                forall|t: int| 0 <= t <= q ==> base@[t] == globals_prefix(offs, ps, t),
            decreases np - q,
        {
            proof {
                lemma_prefix_le_sum(locals@, offs, ps, q as int + 1, np as int);
                assert(globals_prefix(offs, ps, q as int + 1) == base@[q as int] + locals@[q as int]@.len());
            }
            let next = base[q] + locals[q].len();
            base.push(next);
            q = q + 1;
        }
        // The map and whether it is the identity.
        let mut m: Vec<usize> = Vec::new();
        let mut ident = true;
        let mut i: usize = 0;
        proof {
            lemma_prefix_le_sum(locals@, offs, ps, np as int, np as int);
            lemma_concat_len(offs, ps, np as int);
        }
        while i < g.len()
            invariant
                offsets_wf(offs),
                np == n_parts(offs),
                ps.len() == np,
                locals@.len() == np,
                base@.len() == np + 1,
                forall|t: int| 0 <= t <= np ==> base@[t] == globals_prefix(offs, ps, t),
                forall|p: int| 0 <= p < np ==> part_globals(offs, ps, p).len() == locals@[p]@.len(),
                forall|p: int|
                    0 <= p < np ==> part_globals(offs, ps, p) =~= Seq::new(
                        locals@[p]@.len(),
                        |t: int| locals@[p]@[t] + offs[p],
                    ),
                globals_prefix(offs, ps, np as int) == g@.len(),
                split_concat(offs, ps).len() == g@.len(),
                g@.len() == gs.len(),
                pidx@.len() == g@.len(),
                rank@.len() == g@.len(),
                forall|t: int|
                    0 <= t < g@.len() ==> {
                        &&& #[trigger] pidx@[t] < np
                        &&& rank@[t] < locals@[pidx@[t] as int]@.len()
                        &&& locals@[pidx@[t] as int]@[rank@[t] as int] + offs[pidx@[t] as int]
                            == gs[t]
                    },
                i <= g@.len(),
                m@.len() == i,
                forall|t: int|
                    0 <= t < i ==> #[trigger] m@[t] == base@[pidx@[t] as int] + rank@[t],
                forall|t: int| 0 <= t < i ==> m@[t] < g@.len(),
                forall|t: int| 0 <= t < i ==> split_concat(offs, ps)[#[trigger] m@[t] as int] == gs[t],
                ident ==> forall|t: int| 0 <= t < i ==> #[trigger] m@[t] == t,
            decreases g@.len() - i,
        {
            let p = pidx[i];
            proof {
                lemma_prefix_le_sum(locals@, offs, ps, p as int + 1, np as int);
                lemma_concat_index(offs, ps, np as int, p as int, rank@[i as int] as int);
            }
            let d = base[p] + rank[i];
            if d != i {
                ident = false;
            }
            m.push(d);
            i = i + 1;
        }
        proof {
            assert forall|t: int, u: int| 0 <= t < u < m@.len() implies m@[t] != m@[u] by {
                let pt = pidx@[t] as int;
                let pu = pidx@[u] as int;
                if pt < pu {
                    lemma_prefix_mono(offs, ps, pt + 1, pu);
                } else if pu < pt {
                    lemma_prefix_mono(offs, ps, pu + 1, pt);
                } else {
                    lemma_ranks_distinct(pidx@, rank@, locals@, t, u);
                }
            }
        }
        if ident {
            proof {
                assert forall|t: int| 0 <= t < gs.len() implies split_concat(offs, ps)[t] == gs[t] by {
                    assert(m@[t] == t);
                }
                assert(split_concat(offs, ps) =~= gs);
            }
            (parts, None)
        } else {
            (parts, Some(m))
        }
    }
}

/// `x` moved into the range `[a, b]`.
pub open spec fn clamp(x: int, a: int, b: int) -> int {
    if x < a {
        a
    } else if x > b {
        b
    } else {
        x
    }
}

/// Sum of the lengths of the first `k` vectors.
pub open spec fn lens_sum(ls: Seq<Vec<usize>>, k: int) -> int
    decreases k,
{
    if k <= 0 {
        0
    } else {
        lens_sum(ls, k - 1) + ls[k - 1]@.len()
    }
}

proof fn lemma_size_prefix_mono(sizes: Seq<usize>, i: int, j: int)
    requires
        0 <= i <= j,
    ensures
        size_prefix(sizes, i) <= size_prefix(sizes, j),
    decreases j - i,
{
    if i < j {
        lemma_size_prefix_mono(sizes, i, j - 1);
    }
}

/// A unit-step slice picks the consecutive positions between its bounds.
proof fn lemma_unit_slice(s: Slice, n: nat)
    requires
        s.step == 1,
    ensures
        SelectInfoElem::Slice(s).indices(n) =~= Seq::new(
            if slice_hi(s, n) > slice_lo(s, n) {
                (slice_hi(s, n) - slice_lo(s, n)) as nat
            } else {
                0nat
            },
            |i: int| slice_lo(s, n) + i,
        ),
{
    if slice_hi(s, n) > slice_lo(s, n) {
        let d = (slice_hi(s, n) - slice_lo(s, n) - 1) as nat;
        assert(d / 1 == d);
    }
}

proof fn lemma_concat_globals_frame(
    offs: Seq<usize>,
    a: Seq<SelectInfoElem>,
    b: Seq<SelectInfoElem>,
    k: int,
)
    requires
        0 <= k,
        k <= a.len(),
        k <= b.len(),
        forall|q: int| 0 <= q < k ==> a[q] == b[q],
    ensures
        concat_globals(offs, a, k) == concat_globals(offs, b, k),
    decreases k,
{
    if k > 0 {
        lemma_concat_globals_frame(offs, a, b, k - 1);
    }
}

proof fn lemma_lens_sum_zero(ls: Seq<Vec<usize>>, k: int)
    requires
        0 <= k <= ls.len(),
        forall|t: int| 0 <= t < ls.len() ==> (#[trigger] ls[t])@.len() == 0,
    ensures
        lens_sum(ls, k) == 0,
    decreases k,
{
    if k > 0 {
        lemma_lens_sum_zero(ls, k - 1);
    }
}

proof fn lemma_lens_sum_push(a: Seq<Vec<usize>>, b: Seq<Vec<usize>>, p: int, k: int)
    requires
        0 <= p < a.len(),
        a.len() == b.len(),
        0 <= k <= a.len(),
        b[p]@.len() == a[p]@.len() + 1,
        forall|t: int| 0 <= t < a.len() && t != p ==> a[t] == b[t],
    ensures
        lens_sum(b, k) == lens_sum(a, k) + if p < k {
            1int
        } else {
            0int
        },
    decreases k,
{
    if k > 0 {
        lemma_lens_sum_push(a, b, p, k - 1);
    }
}

/// Prefix counts of positions are bounded by the whole count.
proof fn lemma_prefix_le_sum(
    ls: Seq<Vec<usize>>,
    offs: Seq<usize>,
    ps: Seq<SelectInfoElem>,
    q: int,
    k: int,
)
    requires
        0 <= q <= k <= ls.len(),
        k <= ps.len(),
        forall|p: int| 0 <= p < k ==> part_globals(offs, ps, p).len() == ls[p]@.len(),
    ensures
        globals_prefix(offs, ps, q) <= globals_prefix(offs, ps, k),
        globals_prefix(offs, ps, k) == lens_sum(ls, k),
    decreases k,
{
    if k > 0 {
        if q == k {
            lemma_prefix_le_sum(ls, offs, ps, q - 1, k - 1);
        } else {
            lemma_prefix_le_sum(ls, offs, ps, q, k - 1);
        }
    }
}

proof fn lemma_prefix_mono(offs: Seq<usize>, ps: Seq<SelectInfoElem>, q: int, k: int)
    requires
        0 <= q <= k,
    ensures
        globals_prefix(offs, ps, q) <= globals_prefix(offs, ps, k),
    decreases k - q,
{
    if q < k {
        lemma_prefix_mono(offs, ps, q, k - 1);
    }
}

proof fn lemma_concat_len(offs: Seq<usize>, ps: Seq<SelectInfoElem>, k: int)
    requires
        0 <= k,
    ensures
        concat_globals(offs, ps, k).len() == globals_prefix(offs, ps, k),
    decreases k,
{
    if k > 0 {
        lemma_concat_len(offs, ps, k - 1);
    }
}

/// Row `r` of partition `p` stands in the concatenation after the rows of
/// the partitions before `p`.
proof fn lemma_concat_index(offs: Seq<usize>, ps: Seq<SelectInfoElem>, k: int, p: int, r: int)
    requires
        0 <= p < k,
        0 <= r < part_globals(offs, ps, p).len(),
    ensures
        concat_globals(offs, ps, k)[globals_prefix(offs, ps, p) + r] == part_globals(
            offs,
            ps,
            p,
        )[r],
        globals_prefix(offs, ps, p) + r < globals_prefix(offs, ps, k),
    decreases k,
{
    lemma_concat_len(offs, ps, k - 1);
    lemma_prefix_mono(offs, ps, 0, p);
    let c = concat_globals(offs, ps, k - 1);
    let d = part_globals(offs, ps, k - 1);
    assert(concat_globals(offs, ps, k) == c + d);
    if p < k - 1 {
        lemma_concat_index(offs, ps, k - 1, p, r);
        assert(globals_prefix(offs, ps, p) + r < c.len());
        assert((c + d)[globals_prefix(offs, ps, p) + r] == c[globals_prefix(offs, ps, p) + r]);
    } else {
        assert((c + d)[globals_prefix(offs, ps, p) + r] == d[r]);
    }
}

proof fn lemma_ranks_distinct(
    pidx: Seq<usize>,
    rank: Seq<usize>,
    locals: Seq<Vec<usize>>,
    t: int,
    u: int,
)
    requires
        0 <= t < u < pidx.len(),
        pidx[t] == pidx[u],
        forall|a: int, b: int| 0 <= a < b < pidx.len() && pidx[a] == pidx[b] ==> rank[a] < rank[b],
    ensures
        rank[t] != rank[u],
{
}

/// The last position below `k` that `mapping` sends to `j`, or 0 where
/// there is none.
pub open spec fn last_sent_to(mapping: Seq<usize>, j: int, k: int) -> int
    decreases k,
{
    if k <= 0 {
        0
    } else if mapping[k - 1] == j {
        k - 1
    } else {
        last_sent_to(mapping, j, k - 1)
    }
}

/// The inverse of a map of positions: entry `j` of the result is the last
/// position `i` of `mapping` with `mapping[i] == j`, or 0 where there is
/// none.
pub fn reverse_mapping(mapping: &[usize], n: usize) -> (r: Vec<usize>)
    requires
        forall|i: int| 0 <= i < mapping@.len() ==> mapping@[i] < n,
    ensures
        r@.len() == n,
        forall|j: int| 0 <= j < n ==> #[trigger] r@[j] as int == last_sent_to(mapping@, j, mapping@.len() as int),
{
    let mut res: Vec<usize> = Vec::new();
    let mut j: usize = 0;
    while j < n
        invariant
            j <= n,
            res@.len() == j,
            forall|t: int| 0 <= t < j ==> res@[t] == 0,
        decreases n - j,
    {
        res.push(0);
        j = j + 1;
    }
    let mut i: usize = 0;
    while i < mapping.len()
        invariant
            i <= mapping@.len(),
            res@.len() == n,
            forall|t: int| 0 <= t < mapping@.len() ==> mapping@[t] < n,
            forall|j: int| 0 <= j < n ==> #[trigger] res@[j] as int == last_sent_to(mapping@, j, i as int),
        decreases mapping@.len() - i,
    {
        let x = mapping[i];
        res.set(x, i);
        i = i + 1;
    }
    res
}

/// Reversing a map of positions that is one to one undoes it: entry
/// `mapping[i]` of the reverse is `i`. For a permutation of `0..n` the
/// reverse composed with the map is the identity on `0..n`.
pub proof fn lemma_reverse_mapping_inverts(mapping: Seq<usize>)
    requires
        forall|i: int, j: int| 0 <= i < j < mapping.len() ==> mapping[i] != mapping[j],
    ensures
        forall|i: int|
            0 <= i < mapping.len() ==> #[trigger] last_sent_to(mapping, mapping[i] as int, mapping.len() as int) == i,
{
    assert forall|i: int| 0 <= i < mapping.len() implies #[trigger] last_sent_to(
        mapping,
        mapping[i] as int,
        mapping.len() as int,
    ) == i by {
        lemma_last_sent_to(mapping, i, mapping.len() as int);
    }
}

proof fn lemma_last_sent_to(mapping: Seq<usize>, i: int, k: int)
    requires
        forall|a: int, b: int| 0 <= a < b < mapping.len() ==> mapping[a] != mapping[b],
        0 <= i < k <= mapping.len(),
    ensures
        last_sent_to(mapping, mapping[i] as int, k) == i,
    decreases k,
{
    if k - 1 > i {
        assert(mapping[i] != mapping[k - 1]);
        lemma_last_sent_to(mapping, i, k - 1);
    }
}

} // verus!
