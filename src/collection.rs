use vstd::prelude::*;
use vstd::string::StringExecFns;

use crate::array::{ArrayData, Encoding};
use crate::index::strs;

verus! {

/// A value held under a name in an unconstrained collection.
#[derive(Debug)]
pub enum Data {
    Array(ArrayData),
    Scalar(i64),
    Text(String),
    /// A frame of named string columns.
    Table(Vec<(String, Vec<String>)>),
}

impl Data {
    /// The two values hold the same content.
    pub open spec fn same(&self, other: &Data) -> bool {
        match (self, other) {
            (Data::Array(a), Data::Array(b)) => a.encoding == b.encoding && a.ncols == b.ncols
                && a.rows_view() == b.rows_view() && (a.wf() ==> b.wf()),
            (Data::Scalar(a), Data::Scalar(b)) => a == b,
            (Data::Text(a), Data::Text(b)) => a@ == b@,
            (Data::Table(a), Data::Table(b)) => table_view(a@) == table_view(b@),
            _ => false,
        }
    }

    /// A copy of the value.
    pub fn copy(&self) -> (r: Data)
        ensures
            self.same(&r),
    {
        match self {
            Data::Array(a) => Data::Array(a.copy()),
            Data::Scalar(x) => Data::Scalar(*x),
            Data::Text(t) => Data::Text(t.clone()),
            Data::Table(t) => Data::Table(copy_table(t)),
        }
    }
}

/// The columns of a table, as names and sequences of strings.
pub open spec fn table_view(t: Seq<(String, Vec<String>)>) -> Seq<(Seq<char>, Seq<Seq<char>>)> {
    Seq::new(t.len(), |i: int| (t[i].0@, strs(t[i].1@)))
}

/// A copy of a table.
pub fn copy_table(t: &Vec<(String, Vec<String>)>) -> (r: Vec<(String, Vec<String>)>)
    ensures
        table_view(r@) == table_view(t@),
{
    let mut out: Vec<(String, Vec<String>)> = Vec::new();
    let mut i: usize = 0;
    while i < t.len()
        invariant
            i <= t@.len(),
            out@.len() == i,
            forall|j: int| 0 <= j < i ==> (#[trigger] out@[j]).0@ == t@[j].0@ && strs(out@[j].1@)
                == strs(t@[j].1@),
        decreases t@.len() - i,
    {
        out.push((t[i].0.clone(), crate::index::copy_strings(&t[i].1)));
        i = i + 1;
    }
    assert(table_view(out@) =~= table_view(t@));
    out
}

/// The names of a list of named entries.
pub open spec fn entry_keys<T>(entries: Seq<(String, T)>) -> Seq<Seq<char>> {
    Seq::new(entries.len(), |i: int| entries[i].0@)
}

/// No name occurs twice.
pub open spec fn keys_unique(keys: Seq<Seq<char>>) -> bool {
    forall|i: int, j: int| 0 <= i < j < keys.len() ==> keys[i] != keys[j]
}

/// Position of the entry named `key`.
pub fn find_key<T>(entries: &Vec<(String, T)>, key: &String) -> (r: Option<usize>)
    ensures
        match r {
            Some(i) => i < entries@.len() && entries@[i as int].0@ == key@ && forall|j: int|
                0 <= j < i ==> entries@[j].0@ != key@,
            None => forall|j: int| 0 <= j < entries@.len() ==> entries@[j].0@ != key@,
        },
{
    let mut i: usize = 0;
    while i < entries.len()
        invariant
            i <= entries@.len(),
            forall|j: int| 0 <= j < i ==> entries@[j].0@ != key@,
        decreases entries@.len() - i,
    {
        if entries[i].0.eq(key) {
            return Some(i);
        }
        i = i + 1;
    }
    None
}

/// The value of the entry named `k`, if any.
pub open spec fn lookup<T>(entries: Seq<(String, T)>, k: Seq<char>) -> Option<T> {
    if exists|i: int| 0 <= i < entries.len() && entries[i].0@ == k {
        Some(entries[key_pos(entries, k)].1)
    } else {
        None
    }
}

/// A position of an entry named `k`, where there is one.
pub open spec fn key_pos<T>(entries: Seq<(String, T)>, k: Seq<char>) -> int {
    choose|i: int| 0 <= i < entries.len() && entries[i].0@ == k
}

proof fn lemma_lookup_at<T>(entries: Seq<(String, T)>, i: int)
    requires
        keys_unique(entry_keys(entries)),
        0 <= i < entries.len(),
    ensures
        lookup(entries, entries[i].0@) == Some(entries[i].1),
{
    let k = entries[i].0@;
    assert(exists|j: int| 0 <= j < entries.len() && entries[j].0@ == k) by {
        assert(0 <= i < entries.len() && entries[i].0@ == k);
    }
    let c = key_pos(entries, k);
    if c != i {
        if c < i {
            assert(entry_keys(entries)[c] != entry_keys(entries)[i]);
        } else {
            assert(entry_keys(entries)[i] != entry_keys(entries)[c]);
        }
    }
}

/// Puts `value` under `key` in a list of entries with distinct names: in
/// place of the entry of that name if there is one, after the other entries
/// otherwise.
pub fn put<T>(entries: &mut Vec<(String, T)>, key: String, value: T)
    requires
        keys_unique(entry_keys(old(entries)@)),
    ensures
        keys_unique(entry_keys(final(entries)@)),
        entry_keys(final(entries)@) == if entry_keys(old(entries)@).contains(key@) {
            entry_keys(old(entries)@)
        } else {
            entry_keys(old(entries)@).push(key@)
        },
        lookup(final(entries)@, key@) == Some(value),
        forall|k: Seq<char>| k != key@ ==> lookup(final(entries)@, k) == lookup(old(entries)@, k),
{
    let ghost before = entries@;
    let ghost kv = key@;
    match find_key(entries, &key) {
        Some(i) => {
            entries.set(i, (key, value));
            proof {
                assert(entry_keys(entries@) =~= entry_keys(before));
                assert(entry_keys(before)[i as int] == kv);
                lemma_lookup_at(entries@, i as int);
                assert forall|k: Seq<char>| k != kv implies lookup(entries@, k) == lookup(
                    before,
                    k,
                ) by {
                    if exists|j: int| 0 <= j < before.len() && before[j].0@ == k {
                        let j = choose|j: int| 0 <= j < before.len() && before[j].0@ == k;
                        lemma_lookup_at(before, j);
                        lemma_lookup_at(entries@, j);
                    } else {
                        assert(!exists|j: int| 0 <= j < entries@.len() && entries@[j].0@ == k) by {
                            if exists|j: int| 0 <= j < entries@.len() && entries@[j].0@ == k {
                                let j = choose|j: int|
                                    0 <= j < entries@.len() && entries@[j].0@ == k;
                                assert(before[j].0@ == k);
                            }
                        }
                    }
                }
            }
        },
        None => {
            entries.push((key, value));
            proof {
                assert(entry_keys(entries@) =~= entry_keys(before).push(kv));
                assert(!entry_keys(before).contains(kv)) by {
                    if entry_keys(before).contains(kv) {
                        let t = choose|t: int|
                            0 <= t < entry_keys(before).len() && entry_keys(before)[t] == kv;
                        assert(before[t].0@ == kv);
                    }
                }
                assert forall|i: int, j: int|
                    0 <= i < j < entry_keys(entries@).len() implies entry_keys(entries@)[i]
                    != entry_keys(entries@)[j] by {
                    if j == before.len() {
                        assert(entry_keys(entries@)[i] == before[i].0@);
                    }
                }
                lemma_lookup_at(entries@, before.len() as int);
                assert forall|k: Seq<char>| k != kv implies lookup(entries@, k) == lookup(
                    before,
                    k,
                ) by {
                    if exists|j: int| 0 <= j < before.len() && before[j].0@ == k {
                        let j = choose|j: int| 0 <= j < before.len() && before[j].0@ == k;
                        lemma_lookup_at(before, j);
                        lemma_lookup_at(entries@, j);
                    } else {
                        assert(!exists|j: int| 0 <= j < entries@.len() && entries@[j].0@ == k) by {
                            if exists|j: int| 0 <= j < entries@.len() && entries@[j].0@ == k {
                                let j = choose|j: int|
                                    0 <= j < entries@.len() && entries@[j].0@ == k;
                                assert(before[j].0@ == k);
                            }
                        }
                    }
                }
            }
        },
    }
}

/// Removes the entry named `key` if there is one, keeping the order of the
/// others, and returns its value.
pub fn take<T>(entries: &mut Vec<(String, T)>, key: &String) -> (r: Option<T>)
    requires
        keys_unique(entry_keys(old(entries)@)),
    ensures
        keys_unique(entry_keys(final(entries)@)),
        r == lookup(old(entries)@, key@),
        lookup(final(entries)@, key@) is None,
        forall|k: Seq<char>| k != key@ ==> lookup(final(entries)@, k) == lookup(old(entries)@, k),
        r is None ==> final(entries)@ == old(entries)@,
        r is Some ==> exists|i: int|
            0 <= i < old(entries)@.len() && old(entries)@[i].0@ == key@ && final(entries)@
                == old(entries)@.remove(i),
{
    let ghost before = entries@;
    match find_key(entries, key) {
        Some(i) => {
            let (_, v) = entries.remove(i);
            proof {
                let ka = entry_keys(entries@);
                let kb = entry_keys(before);
                assert(ka =~= kb.remove(i as int));
                lemma_lookup_at(before, i as int);
                assert forall|a: int, b: int| 0 <= a < b < ka.len() implies ka[a] != ka[b] by {
                    let a2 = if a < i { a } else { a + 1 };
                    let b2 = if b < i { b } else { b + 1 };
                    assert(ka[a] == kb[a2] && ka[b] == kb[b2]);
                }
                assert forall|k: Seq<char>| k != key@ implies lookup(entries@, k) == lookup(
                    before,
                    k,
                ) by {
                    if exists|j: int| 0 <= j < before.len() && before[j].0@ == k {
                        let j = choose|j: int| 0 <= j < before.len() && before[j].0@ == k;
                        lemma_lookup_at(before, j);
                        let j2 = if j < i { j } else { j - 1 };
                        assert(entries@[j2] == before[j]);
                        lemma_lookup_at(entries@, j2);
                    } else {
                        assert(!exists|j: int| 0 <= j < entries@.len() && entries@[j].0@ == k) by {
                            if exists|j: int| 0 <= j < entries@.len() && entries@[j].0@ == k {
                                let j = choose|j: int|
                                    0 <= j < entries@.len() && entries@[j].0@ == k;
                                let j2 = if j < i { j } else { j + 1 };
                                assert(before[j2].0@ == k);
                            }
                        }
                    }
                }
                assert(!exists|j: int| 0 <= j < entries@.len() && entries@[j].0@ == key@) by {
                    if exists|j: int| 0 <= j < entries@.len() && entries@[j].0@ == key@ {
                        let j = choose|j: int| 0 <= j < entries@.len() && entries@[j].0@ == key@;
                        let j2 = if j < i { j } else { j + 1 };
                        assert(kb[j2] == kb[i as int]);
                    }
                }
            }
            Some(v)
        },
        None => None,
    }
}

/// Whether the entries have distinct names.
pub fn keys_distinct<T>(entries: &Vec<(String, T)>) -> (r: bool)
    ensures
        r == keys_unique(entry_keys(entries@)),
{
    let mut j: usize = 0;
    while j < entries.len()
        invariant
            j <= entries@.len(),
            forall|a: int, b: int| 0 <= a < b < j ==> entries@[a].0@ != entries@[b].0@,
        decreases entries@.len() - j,
    {
        let mut i: usize = 0;
        while i < j
            invariant
                j < entries@.len(),
                i <= j,
                forall|a: int, b: int| 0 <= a < b < j ==> entries@[a].0@ != entries@[b].0@,
                forall|a: int| 0 <= a < i ==> entries@[a].0@ != entries@[j as int].0@,
            decreases j - i,
        {
            if entries[i].0.eq(&entries[j].0) {
                proof {
                    assert(entry_keys(entries@)[i as int] == entry_keys(entries@)[j as int]);
                }
                return false;
            }
            i = i + 1;
        }
        j = j + 1;
    }
    proof {
        assert forall|a: int, b: int| 0 <= a < b < entry_keys(entries@).len() implies entry_keys(
            entries@,
        )[a] != entry_keys(entries@)[b] by {
            assert(entries@[a].0@ != entries@[b].0@);
        }
    }
    true
}

/// The names of a list of entries, in order.
pub fn key_list<T>(entries: &Vec<(String, T)>) -> (r: Vec<String>)
    ensures
        strs(r@) == entry_keys(entries@),
{
    let mut out: Vec<String> = Vec::new();
    let mut i: usize = 0;
    while i < entries.len()
        invariant
            i <= entries@.len(),
            out@.len() == i,
            forall|t: int| 0 <= t < i ==> (#[trigger] out@[t])@ == entries@[t].0@,
        decreases entries@.len() - i,
    {
        out.push(entries[i].0.clone());
        i = i + 1;
    }
    assert(strs(out@) =~= entry_keys(entries@));
    out
}

/// The entries of an unconstrained collection, with distinct names.
#[derive(Debug)]
pub struct InnerElemCollection {
    data: Vec<(String, Data)>,
}

impl InnerElemCollection {
    pub closed spec fn entries(&self) -> Seq<(String, Data)> {
        self.data@
    }

    pub open spec fn wf(&self) -> bool {
        keys_unique(entry_keys(self.entries()))
    }

    /// Puts `data` under `key`, replacing the value of that name if there is
    /// one.
    pub fn add_data(&mut self, key: &str, data: Data)
        requires
            old(self).wf(),
        ensures
            final(self).wf(),
            entry_keys(final(self).entries()) == if entry_keys(old(self).entries()).contains(key@) {
                entry_keys(old(self).entries())
            } else {
                entry_keys(old(self).entries()).push(key@)
            },
            lookup(final(self).entries(), key@) == Some(data),
            forall|k: Seq<char>|
                k != key@ ==> lookup(final(self).entries(), k) == lookup(old(self).entries(), k),
    {
        put(&mut self.data, key.to_owned(), data);
    }

    /// Removes the value named `key`, if there is one.
    pub fn remove_data(&mut self, key: &str)
        requires
            old(self).wf(),
        ensures
            final(self).wf(),
            lookup(final(self).entries(), key@) is None,
            forall|k: Seq<char>|
                k != key@ ==> lookup(final(self).entries(), k) == lookup(old(self).entries(), k),
    {
        let k = key.to_owned();
        let _ = take(&mut self.data, &k);
    }

    /// A copy of every entry, in order, for writing to another location.
    pub fn export(&self) -> (r: InnerElemCollection)
        requires
            self.wf(),
        ensures
            r.wf(),
            entry_keys(r.entries()) == entry_keys(self.entries()),
            forall|i: int|
                0 <= i < self.entries().len() ==> #[trigger] self.entries()[i].1.same(
                    &r.entries()[i].1,
                ),
    {
        let mut out: Vec<(String, Data)> = Vec::new();
        let mut i: usize = 0;
        while i < self.data.len()
            invariant
                i <= self.data@.len(),
                out@.len() == i,
                forall|t: int| 0 <= t < i ==> (#[trigger] out@[t]).0@ == self.data@[t].0@,
                forall|t: int| 0 <= t < i ==> self.data@[t].1.same(&(#[trigger] out@[t]).1),
            decreases self.data@.len() - i,
        {
            out.push((self.data[i].0.clone(), self.data[i].1.copy()));
            i = i + 1;
        }
        assert(entry_keys(out@) =~= entry_keys(self.data@));
        InnerElemCollection { data: out }
    }

    pub fn keys(&self) -> (r: Vec<String>)
        ensures
            strs(r@) == entry_keys(self.entries()),
    {
        key_list(&self.data)
    }

    /// `Dict with keys: ` and the names, separated by commas.
    pub fn describe(&self) -> (r: String)
        ensures
            r@ == "Dict with keys: "@ + crate::text::join(entry_keys(self.entries()), ", "@),
    {
        let mut out = "Dict with keys: ".to_owned();
        let keys = self.keys();
        let joined = crate::text::join_strings(&keys, ", ");
        out.append(joined.as_str());
        out
    }

    /// The value named `key`.
    pub fn get(&self, key: &str) -> (r: Option<&Data>)
        requires
            self.wf(),
        ensures
            match r {
                Some(d) => lookup(self.entries(), key@) == Some(*d),
                None => lookup(self.entries(), key@) is None,
            },
    {
        let k = key.to_owned();
        match find_key(&self.data, &k) {
            Some(i) => {
                proof {
                    lemma_lookup_at(self.data@, i as int);
                }
                Some(&self.data[i].1)
            },
            None => None,
        }
    }
}

/// A named collection of values with no shape constraint; it may be absent
/// altogether, as after `clear`.
#[derive(Debug)]
pub struct ElemCollection(Option<InnerElemCollection>);

impl ElemCollection {
    pub closed spec fn slot(&self) -> Option<InnerElemCollection> {
        self.0
    }

    pub open spec fn wf(&self) -> bool {
        self.slot() matches Some(c) ==> c.wf()
    }

    /// The entries, none when the collection is absent.
    pub open spec fn entries(&self) -> Seq<(String, Data)> {
        match self.slot() {
            Some(c) => c.entries(),
            None => Seq::empty(),
        }
    }

    /// An absent collection.
    pub fn empty() -> (r: Self)
        ensures
            r.slot() is None,
            r.wf(),
    {
        ElemCollection(None)
    }

    pub fn is_none(&self) -> (r: bool)
        ensures
            r == self.slot() is None,
    {
        self.0.is_none()
    }

    /// Absent, or present with no entry.
    pub fn is_empty(&self) -> (r: bool)
        ensures
            r == (self.entries().len() == 0),
    {
        match &self.0 {
            None => true,
            Some(c) => c.data.len() == 0,
        }
    }

    /// A collection of the given entries; where a name occurs twice, the
    /// later value is kept.
    pub fn new(entries: Vec<(String, Data)>) -> (r: Self)
        ensures
            r.slot() is Some,
            r.wf(),
            r.entries().len() <= entries@.len(),
            entry_keys(r.entries()).to_set() == entry_keys(entries@).to_set(),
            forall|i: int|
                0 <= i < entries@.len() && (forall|j: int|
                    i < j < entries@.len() ==> entries@[j].0@ != entries@[i].0@) ==> lookup(
                    r.entries(),
                    entries@[i].0@,
                ) == Some(#[trigger] entries@[i].1),
    {
        let mut data: Vec<(String, Data)> = Vec::new();
        let mut src = entries;
        let total = src.len();
        let ghost all = src@;
        let mut rev: Vec<(String, Data)> = Vec::new();
        while src.len() > 0
            invariant
                src@ + rev@.reverse() == all,
            decreases src@.len(),
        {
            let e = src.pop().unwrap();
            proof {
                assert(src@.push(e) + rev@.reverse() == all);
            }
            let ghost before = rev@;
            rev.push(e);
            proof {
                assert(rev@.reverse() =~= seq![e] + before.reverse());
                assert(src@ + rev@.reverse() =~= src@.push(e) + before.reverse());
            }
        }
        assert(rev@.reverse() =~= all);
        let mut i: usize = 0;
        let ghost n = all.len();
        proof {
            assert(entry_keys(data@).to_set() =~= entry_keys(all.subrange(0, 0)).to_set());
        }
        while rev.len() > 0
            invariant
                n == all.len(),
                n == total,
                rev@.len() + i == n,
                forall|t: int| 0 <= t < rev@.len() ==> rev@[t] == all[n - 1 - t],
                keys_unique(entry_keys(data@)),
                data@.len() <= i,
                entry_keys(data@).to_set() == entry_keys(all.subrange(0, i as int)).to_set(),
                forall|t: int|
                    0 <= t < i && (forall|j: int| t < j < i ==> all[j].0@ != all[t].0@) ==> lookup(
                        data@,
                        all[t].0@,
                    ) == Some(#[trigger] all[t].1),
            decreases rev@.len(),
        {
            let (k, v) = rev.pop().unwrap();
            let ghost kv = k@;
            let ghost prev = data@;
            proof {
                assert(all[i as int] == (k, v));
            }
            put(&mut data, k, v);
            proof {
                assert(entry_keys(data@).len() == data@.len());
                let ks = entry_keys(all.subrange(0, i as int + 1));
                assert(ks =~= entry_keys(all.subrange(0, i as int)).push(kv));
                entry_keys(all.subrange(0, i as int)).lemma_push_to_set_commute(kv);
                entry_keys(prev).lemma_push_to_set_commute(kv);
                if entry_keys(prev).contains(kv) {
                    assert(entry_keys(prev).to_set().insert(kv) =~= entry_keys(prev).to_set());
                }
            }
            i = i + 1;
        }
        assert(all.subrange(0, n as int) =~= all);
        ElemCollection(Some(InnerElemCollection { data }))
    }

    /// Empties the collection: it becomes absent.
    pub fn clear(&mut self)
        ensures
            final(self).slot() is None,
    {
        self.0 = None;
    }

    /// A copy of the collection, for writing to another location.
    pub fn export(&self) -> (r: ElemCollection)
        requires
            self.wf(),
        ensures
            r.wf(),
            (r.slot() is Some) == (self.slot() is Some),
            entry_keys(r.entries()) == entry_keys(self.entries()),
            forall|i: int|
                0 <= i < self.entries().len() ==> #[trigger] self.entries()[i].1.same(
                    &r.entries()[i].1,
                ),
    {
        match &self.0 {
            Some(c) => ElemCollection(Some(c.export())),
            None => ElemCollection(None),
        }
    }

    /// The names of the entries, none when the collection is absent.
    pub fn keys(&self) -> (r: Vec<String>)
        ensures
            strs(r@) == entry_keys(self.entries()),
    {
        match &self.0 {
            None => {
                let r: Vec<String> = Vec::new();
                assert(strs(r@) =~= entry_keys(self.entries()));
                r
            },
            Some(c) => c.keys(),
        }
    }

    /// The value named `key`, if the collection holds one.
    pub fn get_item(&self, key: &str) -> (r: Option<&Data>)
        requires
            self.wf(),
        ensures
            match r {
                Some(d) => lookup(self.entries(), key@) == Some(*d),
                None => lookup(self.entries(), key@) is None,
            },
    {
        match &self.0 {
            None => None,
            Some(c) => c.get(key),
        }
    }

    /// Puts `data` under `key`; an absent collection becomes present.
    pub fn add(&mut self, key: &str, data: Data)
        requires
            old(self).wf(),
        ensures
            final(self).wf(),
            final(self).slot() is Some,
            lookup(final(self).entries(), key@) == Some(data),
            forall|k: Seq<char>|
                k != key@ ==> lookup(final(self).entries(), k) == lookup(old(self).entries(), k),
    {
        let mut inner = match self.0.take() {
            Some(c) => c,
            None => InnerElemCollection { data: Vec::new() },
        };
        inner.add_data(key, data);
        self.0 = Some(inner);
    }

    /// Removes the value named `key`, if there is one.
    pub fn remove(&mut self, key: &str)
        requires
            old(self).wf(),
        ensures
            final(self).wf(),
            final(self).slot() is Some <==> old(self).slot() is Some,
            lookup(final(self).entries(), key@) is None,
            forall|k: Seq<char>|
                k != key@ ==> lookup(final(self).entries(), k) == lookup(old(self).entries(), k),
    {
        match self.0.take() {
            Some(mut c) => {
                c.remove_data(key);
                self.0 = Some(c);
            },
            None => {},
        }
    }
}

/// The value of the entry at position `i`, looked up by its name.
pub proof fn lemma_entry_lookup<T>(entries: Seq<(String, T)>, i: int)
    requires
        keys_unique(entry_keys(entries)),
        0 <= i < entries.len(),
    ensures
        lookup(entries, entries[i].0@) == Some(entries[i].1),
{
    lemma_lookup_at(entries, i);
}

/// After a `put`, every value is the new one or an earlier one.
pub proof fn lemma_put_values<T>(before: Seq<(String, T)>, after: Seq<(String, T)>, k: Seq<char>, v: T)
    requires
        keys_unique(entry_keys(before)),
        keys_unique(entry_keys(after)),
        lookup(after, k) == Some(v),
        forall|x: Seq<char>| x != k ==> lookup(after, x) == lookup(before, x),
    ensures
        forall|i: int|
            0 <= i < after.len() ==> #[trigger] after[i].1 == v || exists|j: int|
                0 <= j < before.len() && before[j].1 == after[i].1,
{
    assert forall|i: int| 0 <= i < after.len() implies #[trigger] after[i].1 == v || exists|j: int|
        0 <= j < before.len() && before[j].1 == after[i].1 by {
        lemma_lookup_at(after, i);
        let x = after[i].0@;
        if x != k {
            let j = key_pos(before, x);
            assert(lookup(before, x) == Some(after[i].1));
            assert(before[j].1 == after[i].1);
        }
    }
}

} // verus!
