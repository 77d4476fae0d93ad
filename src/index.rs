use vstd::prelude::*;
use vstd::string::StringExecFns;

use crate::error::AnnError;
use crate::selection::{lemma_slice_step_bound, slice_bounds, SelectInfoElem};

verus! {

/// The character of a decimal digit.
pub open spec fn digit(d: nat) -> char {
    if d == 0 {
        '0'
    } else if d == 1 {
        '1'
    } else if d == 2 {
        '2'
    } else if d == 3 {
        '3'
    } else if d == 4 {
        '4'
    } else if d == 5 {
        '5'
    } else if d == 6 {
        '6'
    } else if d == 7 {
        '7'
    } else if d == 8 {
        '8'
    } else {
        '9'
    }
}

/// The decimal digits of `n`, without sign or leading zeros.
pub open spec fn dec(n: nat) -> Seq<char>
    decreases n,
{
    if n < 10 {
        seq![digit(n)]
    } else {
        dec(n / 10) + seq![digit(n % 10)]
    }
}

/// The one-character string of a decimal digit.
fn digit_str(d: usize) -> (r: &'static str)
    requires
        d < 10,
    ensures
        r@ == seq![digit(d as nat)],
{
    proof {
        reveal_strlit("0");
        reveal_strlit("1");
        reveal_strlit("2");
        reveal_strlit("3");
        reveal_strlit("4");
        reveal_strlit("5");
        reveal_strlit("6");
        reveal_strlit("7");
        reveal_strlit("8");
        reveal_strlit("9");
    }
    if d == 0 {
        "0"
    } else if d == 1 {
        "1"
    } else if d == 2 {
        "2"
    } else if d == 3 {
        "3"
    } else if d == 4 {
        "4"
    } else if d == 5 {
        "5"
    } else if d == 6 {
        "6"
    } else if d == 7 {
        "7"
    } else if d == 8 {
        "8"
    } else {
        "9"
    }
}

/// The decimal digits of `n`, without sign or leading zeros.
pub(crate) fn decimal(n: usize) -> (r: String)
    ensures
        r@ == dec(n as nat),
    decreases n,
{
    if n < 10 {
        digit_str(n).to_owned()
    } else {
        let mut s = decimal(n / 10);
        s.append(digit_str(n % 10));
        s
    }
}

/// A run of fixed-size bins: bins start at `start`, every `step` positions,
/// up to `end`; each covers `size` positions, cut at `end`.
#[derive(Debug, Clone, Copy, PartialEq, Eq, Structural)]
pub struct Interval {
    pub start: usize,
    pub end: usize,
    pub size: usize,
    pub step: usize,
}

/// Number of bins of an interval.
pub open spec fn interval_len(iv: Interval) -> nat {
    if iv.end > iv.start && iv.step > 0 {
        ((iv.end - iv.start - 1) as nat / iv.step as nat + 1) as nat
    } else {
        0
    }
}

/// End of the bin that starts at `x`.
pub open spec fn bin_end(iv: Interval, x: int) -> int {
    if x + iv.size > iv.end {
        iv.end as int
    } else {
        x + iv.size
    }
}

/// Name of bin `i` of the interval named `k`: `k:from-to`.
pub open spec fn bin_name(k: Seq<char>, iv: Interval, i: int) -> Seq<char> {
    let x = iv.start + i * iv.step;
    k + seq![':'] + dec(x as nat) + seq!['-'] + dec(bin_end(iv, x) as nat)
}

pub open spec fn interval_names(k: Seq<char>, iv: Interval) -> Seq<Seq<char>> {
    Seq::new(interval_len(iv), |i: int| bin_name(k, iv, i))
}

/// Names of the bins of the first `n` intervals, in order.
pub open spec fn intervals_names(ivs: Seq<(Seq<char>, Interval)>, n: int) -> Seq<Seq<char>>
    decreases n,
{
    if n <= 0 {
        Seq::empty()
    } else {
        intervals_names(ivs, n - 1) + interval_names(ivs[n - 1].0, ivs[n - 1].1)
    }
}

/// The names of a range of row numbers.
pub open spec fn range_names(start: usize, end: usize) -> Seq<Seq<char>> {
    Seq::new(
        if end > start {
            (end - start) as nat
        } else {
            0
        },
        |i: int| dec((start + i) as nat),
    )
}

/// The strings of a vector, as sequences of characters.
pub open spec fn strs(v: Seq<String>) -> Seq<Seq<char>> {
    Seq::new(v.len(), |i: int| v[i]@)
}

/// What an index is: explicit names, runs of named bins, or a range of row
/// numbers.
pub enum IndexModel {
    List(Seq<Seq<char>>),
    Intervals(Seq<(Seq<char>, Interval)>),
    Range(usize, usize),
}

impl IndexModel {
    /// The row names, in order.
    pub open spec fn names(self) -> Seq<Seq<char>> {
        match self {
            IndexModel::List(v) => v,
            IndexModel::Intervals(ivs) => intervals_names(ivs, ivs.len() as int),
            IndexModel::Range(s, e) => range_names(s, e),
        }
    }

    /// Every interval has a positive step and the number of rows fits in
    /// `usize`.
    pub open spec fn wf(self) -> bool {
        match self {
            IndexModel::Intervals(ivs) => {
                &&& forall|i: int| 0 <= i < ivs.len() ==> (#[trigger] ivs[i]).1.step > 0
                &&& intervals_names(ivs, ivs.len() as int).len() <= usize::MAX
            },
            _ => true,
        }
    }
}

/// The row index of a frame.
#[derive(Debug)]
pub enum Index {
    List(Vec<String>),
    Intervals(Vec<(String, Interval)>),
    Range { start: usize, end: usize },
}

impl View for Index {
    type V = IndexModel;

    open spec fn view(&self) -> IndexModel {
        match self {
            Index::List(v) => IndexModel::List(strs(v@)),
            Index::Intervals(v) => IndexModel::Intervals(
                Seq::new(v@.len(), |i: int| (v@[i].0@, v@[i].1)),
            ),
            Index::Range { start, end } => IndexModel::Range(*start, *end),
        }
    }
}

/// A copy of a vector of strings.
pub fn copy_strings(v: &Vec<String>) -> (r: Vec<String>)
    ensures
        strs(r@) == strs(v@),
{
    let mut out: Vec<String> = Vec::new();
    let mut i: usize = 0;
    while i < v.len()
        invariant
            i <= v@.len(),
            out@.len() == i,
            forall|t: int| 0 <= t < i ==> (#[trigger] out@[t])@ == v@[t]@,
        decreases v@.len() - i,
    {
        out.push(v[i].clone());
        i = i + 1;
    }
    assert(strs(out@) =~= strs(v@));
    out
}

proof fn lemma_intervals_len_mono(ivs: Seq<(Seq<char>, Interval)>, i: int, j: int)
    requires
        0 <= i <= j,
    ensures
        intervals_names(ivs, i).len() <= intervals_names(ivs, j).len(),
    decreases j - i,
{
    if i < j {
        lemma_intervals_len_mono(ivs, i, j - 1);
    }
}

impl Interval {
    /// Number of bins.
    pub fn len(&self) -> (r: usize)
        ensures
            r == interval_len(*self),
    {
        if self.end > self.start && self.step > 0 {
            (self.end - self.start - 1) / self.step + 1
        } else {
            0
        }
    }
}

/// Appends the names of the bins of one interval.
fn push_bin_names(out: &mut Vec<String>, k: &String, iv: Interval)
    requires
        iv.step > 0,
    ensures
        strs(final(out)@) == strs(old(out)@) + interval_names(k@, iv),
{
    let len = iv.len();
    let ghost start = old(out)@;
    let mut j: usize = 0;
    let mut x: usize = iv.start;
    if len > 0 {
        proof {
            lemma_slice_step_bound(0, (iv.end - iv.start) as nat, iv.step as nat);
        }
    }
    while j < len
        invariant
            len == interval_len(iv),
            iv.step > 0,
            len > 0 ==> iv.start < iv.end,
            j <= len,
            j < len ==> x == iv.start + j * iv.step,
            j < len ==> x < iv.end,
            strs(out@) == strs(start) + Seq::new(j as nat, |i: int| bin_name(k@, iv, i)),
        decreases len - j,
    {
        let e = if iv.size >= iv.end - x {
            iv.end
        } else {
            x + iv.size
        };
        let mut name = k.clone();
        let colon = ":";
        let dash = "-";
        proof {
            reveal_strlit(":");
            reveal_strlit("-");
        }
        name.append(colon);
        let from = decimal(x);
        name.append(from.as_str());
        name.append(dash);
        let to = decimal(e);
        name.append(to.as_str());
        let ghost before = out@;
        out.push(name);
        proof {
            assert(name@ == bin_name(k@, iv, j as int));
            assert(strs(out@) =~= strs(before) + seq![name@]);
            assert(strs(out@) =~= strs(start) + Seq::new(
                (j + 1) as nat,
                |i: int| bin_name(k@, iv, i),
            ));
        }
        j = j + 1;
        if j < len {
            proof {
                lemma_slice_step_bound(j as nat, (iv.end - iv.start) as nat, iv.step as nat);
                assert(iv.start + j * iv.step == x + iv.step) by (nonlinear_arith)
                    requires
                        x == iv.start + (j - 1) * iv.step,
                ;
            }
            x = x + iv.step;
        }
    }
    assert(Seq::new(len as nat, |i: int| bin_name(k@, iv, i)) =~= interval_names(k@, iv));
}

impl Index {
    /// An index with no rows.
    pub fn empty() -> (r: Self)
        ensures
            r@ == IndexModel::List(Seq::empty()),
    {
        let r = Index::List(Vec::new());
        assert(strs(Seq::<String>::empty()) =~= Seq::empty());
        r
    }

    /// Number of rows.
    pub fn len(&self) -> (r: usize)
        requires
            self@.wf(),
        ensures
            r == self@.names().len(),
    {
        match self {
            Index::List(v) => v.len(),
            Index::Range { start, end } => {
                if *end > *start {
                    *end - *start
                } else {
                    0
                }
            },
            Index::Intervals(v) => {
                let ghost ivs = self@->Intervals_0;
                let mut total: usize = 0;
                let mut i: usize = 0;
                while i < v.len()
                    invariant
                        ivs == Seq::new(v@.len(), |t: int| (v@[t].0@, v@[t].1)),
                        intervals_names(ivs, ivs.len() as int).len() <= usize::MAX,
                        i <= v@.len(),
                        total == intervals_names(ivs, i as int).len(),
                    decreases v@.len() - i,
                {
                    proof {
                        lemma_intervals_len_mono(ivs, i as int + 1, ivs.len() as int);
                    }
                    total = total + v[i].1.len();
                    i = i + 1;
                }
                total
            },
        }
    }

    /// The row names, in order.
    pub fn names_vec(&self) -> (r: Vec<String>)
        requires
            self@.wf(),
        ensures
            strs(r@) == self@.names(),
    {
        match self {
            Index::List(v) => copy_strings(v),
            Index::Range { start, end } => {
                let mut out: Vec<String> = Vec::new();
                let mut i: usize = *start;
                while i < *end
                    invariant
                        *start <= i <= *end || (*end <= *start && i == *start),
                        strs(out@) == Seq::new(
                            (i - *start) as nat,
                            |t: int| dec((*start + t) as nat),
                        ),
                    decreases *end - i,
                {
                    let d = decimal(i);
                    let ghost before = out@;
                    out.push(d);
                    proof {
                        assert(strs(out@) =~= strs(before).push(d@));
                        assert(i >= *start);
                        assert(strs(out@) =~= Seq::new(
                            (i + 1 - *start) as nat,
                            |t: int| dec((*start + t) as nat),
                        ));
                    }
                    i = i + 1;
                }
                assert(strs(out@) =~= range_names(*start, *end));
                out
            },
            Index::Intervals(v) => {
                let ghost ivs = self@->Intervals_0;
                let mut out: Vec<String> = Vec::new();
                let mut i: usize = 0;
                assert(strs(out@) =~= intervals_names(ivs, 0));
                while i < v.len()
                    invariant
                        ivs == Seq::new(v@.len(), |t: int| (v@[t].0@, v@[t].1)),
                        forall|t: int| 0 <= t < ivs.len() ==> (#[trigger] ivs[t]).1.step > 0,
                        i <= v@.len(),
                        strs(out@) == intervals_names(ivs, i as int),
                    decreases v@.len() - i,
                {
                    assert(ivs[i as int].1.step > 0);
                    push_bin_names(&mut out, &v[i].0, v[i].1);
                    i = i + 1;
                }
                out
            },
        }
    }

    /// A copy of the index.
    pub fn copy(&self) -> (r: Self)
        ensures
            r@ == self@,
    {
        match self {
            Index::List(v) => Index::List(copy_strings(v)),
            Index::Range { start, end } => Index::Range { start: *start, end: *end },
            Index::Intervals(v) => {
                let mut out: Vec<(String, Interval)> = Vec::new();
                let mut i: usize = 0;
                while i < v.len()
                    invariant
                        i <= v@.len(),
                        out@.len() == i,
                        forall|t: int|
                            0 <= t < i ==> (#[trigger] out@[t]).0@ == v@[t].0@ && out@[t].1
                                == v@[t].1,
                    decreases v@.len() - i,
                {
                    out.push((v[i].0.clone(), v[i].1));
                    i = i + 1;
                }
                let r = Index::Intervals(out);
                assert(r@->Intervals_0 =~= self@->Intervals_0);
                r
            },
        }
    }

    /// The index of the rows picked by `sel`. The full selection keeps the
    /// index as it is, and a unit-step slice of a range stays a range; any
    /// other selection gives an explicit list of names.
    pub fn select(&self, sel: &SelectInfoElem) -> (r: Self)
        requires
            self@.wf(),
            sel.valid(self@.names().len()),
        ensures
            r@.wf(),
            r@.names() == pick_names(self@.names(), sel.indices(self@.names().len())),
            sel.spec_is_full() ==> r@ == self@,
    {
        let n = self.len();
        let ghost names = self@.names();
        if sel.is_full() {
            proof {
                crate::selection::lemma_full_indices(sel, n as nat);
                assert(pick_names(names, sel.indices(n as nat)) =~= names);
            }
            return self.copy();
        }
        match (self, sel) {
            (Index::Range { start, end }, SelectInfoElem::Slice(s)) => {
                if s.step == 1 {
                    let (lo, hi0) = slice_bounds(s, n);
                    let hi = if hi0 < lo {
                        lo
                    } else {
                        hi0
                    };
                    let r = Index::Range { start: *start + lo, end: *start + hi };
                    proof {
                        let d = (hi0 - lo - 1) as nat;
                        if hi0 > lo {
                            assert(d / 1 == d);
                        }
                        assert(r@.names() =~= pick_names(names, sel.indices(n as nat)));
                    }
                    return r;
                }
            },
            _ => {},
        }
        let all = self.names_vec();
        let idx = sel.to_vec(n);
        let mut out: Vec<String> = Vec::new();
        let mut i: usize = 0;
        while i < idx.len()
            invariant
                strs(all@) == names,
                names.len() == n,
                idx@.len() == sel.indices(n as nat).len(),
                forall|t: int| 0 <= t < idx@.len() ==> idx@[t] as int == sel.indices(n as nat)[t],
                forall|t: int| 0 <= t < idx@.len() ==> idx@[t] < n,
                i <= idx@.len(),
                out@.len() == i,
                forall|t: int| 0 <= t < i ==> (#[trigger] out@[t])@ == names[idx@[t] as int],
            decreases idx@.len() - i,
        {
            assert(all@[idx@[i as int] as int]@ == names[idx@[i as int] as int]);
            out.push(all[idx[i]].clone());
            i = i + 1;
        }
        let r = Index::List(out);
        assert(r@.names() =~= pick_names(names, sel.indices(n as nat)));
        r
    }
}

/// The names at the positions `idx`, in order.
pub open spec fn pick_names(names: Seq<Seq<char>>, idx: Seq<int>) -> Seq<Seq<char>> {
    Seq::new(idx.len(), |i: int| names[idx[i]])
}

/// Whether the intervals make a well-formed index.
pub fn intervals_wf(v: &Vec<(String, Interval)>) -> (r: bool)
    ensures
        r == IndexModel::Intervals(Seq::new(v@.len(), |t: int| (v@[t].0@, v@[t].1))).wf(),
{
    let ghost ivs = Seq::new(v@.len(), |t: int| (v@[t].0@, v@[t].1));
    let mut total: usize = 0;
    let mut i: usize = 0;
    while i < v.len()
        invariant
            ivs == Seq::new(v@.len(), |t: int| (v@[t].0@, v@[t].1)),
            i <= v@.len(),
            total == intervals_names(ivs, i as int).len(),
            forall|t: int| 0 <= t < i ==> (#[trigger] ivs[t]).1.step > 0,
        decreases v@.len() - i,
    {
        if v[i].1.step == 0 {
            assert(ivs[i as int].1.step == 0);
            return false;
        }
        let l = v[i].1.len();
        if l > usize::MAX - total {
            proof {
                lemma_intervals_len_mono(ivs, i as int + 1, ivs.len() as int);
            }
            return false;
        }
        total = total + l;
        i = i + 1;
    }
    true
}

} // verus!
