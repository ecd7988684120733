//! A map from strings to values that remembers the order in which keys were
//! first inserted. Blocks, clients and miners keep their balances, nonces,
//! transactions and blocks in it.
//!
//! Its model is an association list: a sequence of (key, value) pairs. A lookup
//! finds the first pair with the key; every operation keeps the keys distinct.
use vstd::prelude::*;

verus! {

/// Index of the first pair of `s` whose key is `k`, or -1 when there is none.
pub open spec fn alist_index<W>(s: Seq<(Seq<char>, W)>, k: Seq<char>) -> int
    decreases s.len(),
{
    if s.len() == 0 {
        -1
    } else if s[0].0 == k {
        0
    } else {
        let r = alist_index(s.drop_first(), k);
        if r < 0 {
            -1
        } else {
            r + 1
        }
    }
}

/// The value that `k` maps to in `s`, if any.
pub open spec fn alist_get<W>(s: Seq<(Seq<char>, W)>, k: Seq<char>) -> Option<W> {
    let i = alist_index(s, k);
    if i >= 0 {
        Some(s[i].1)
    } else {
        None
    }
}

/// Whether `k` is a key of `s`.
pub open spec fn alist_contains<W>(s: Seq<(Seq<char>, W)>, k: Seq<char>) -> bool {
    alist_index(s, k) >= 0
}

/// `s` with `k` mapped to `v`: the pair of `k` is replaced in place, or a new
/// pair is appended.
pub open spec fn alist_set<W>(s: Seq<(Seq<char>, W)>, k: Seq<char>, v: W) -> Seq<(Seq<char>, W)> {
    let i = alist_index(s, k);
    if i >= 0 {
        s.update(i, (k, v))
    } else {
        s.push((k, v))
    }
}

/// `s` without the pair of `k`; the other pairs keep their order.
pub open spec fn alist_remove<W>(s: Seq<(Seq<char>, W)>, k: Seq<char>) -> Seq<(Seq<char>, W)> {
    let i = alist_index(s, k);
    if i >= 0 {
        s.remove(i)
    } else {
        s
    }
}

/// No key occurs twice.
pub open spec fn keys_distinct<W>(s: Seq<(Seq<char>, W)>) -> bool {
    forall|i: int, j: int| 0 <= i < s.len() && 0 <= j < s.len() && i != j ==> s[i].0 != s[j].0
}

/// What `alist_index` finds: the first pair with the key, or none at all.
pub proof fn lemma_alist_index<W>(s: Seq<(Seq<char>, W)>, k: Seq<char>)
    ensures
        alist_index(s, k) < s.len(),
        alist_index(s, k) >= 0 ==> s[alist_index(s, k)].0 == k,
        alist_index(s, k) >= 0 ==> forall|j: int| 0 <= j < alist_index(s, k) ==> s[j].0 != k,
        alist_index(s, k) < 0 ==> alist_index(s, k) == -1 && forall|j: int| 0 <= j < s.len() ==> s[j].0 != k,
    decreases s.len(),
{
    if s.len() > 0 && s[0].0 != k {
        lemma_alist_index(s.drop_first(), k);
        assert forall|j: int| 1 <= j < s.len() implies s[j] == s.drop_first()[j - 1] by {}
    }
}

/// An index whose pair has the key, with no earlier pair having it, is the
/// index that `alist_index` finds.
pub proof fn lemma_alist_index_at<W>(s: Seq<(Seq<char>, W)>, k: Seq<char>, i: int)
    requires
        0 <= i < s.len(),
        s[i].0 == k,
        forall|j: int| 0 <= j < i ==> s[j].0 != k,
    ensures
        alist_index(s, k) == i,
{
    lemma_alist_index(s, k);
}

/// Setting a key makes it map to the new value, and leaves the other keys as they were.
pub proof fn lemma_alist_set<W>(s: Seq<(Seq<char>, W)>, k: Seq<char>, v: W, k2: Seq<char>)
    ensures
        alist_get(alist_set(s, k, v), k2) == (if k2 == k {
            Some(v)
        } else {
            alist_get(s, k2)
        }),
        keys_distinct(s) ==> keys_distinct(alist_set(s, k, v)),
{
    let t = alist_set(s, k, v);
    lemma_alist_index(s, k);
    lemma_alist_index(s, k2);
    lemma_alist_index(t, k2);
    let i = alist_index(s, k);
    if i < 0 {
        if k2 == k {
            lemma_alist_index_at(t, k2, s.len() as int);
        } else if alist_index(s, k2) >= 0 {
            lemma_alist_index_at(t, k2, alist_index(s, k2));
        }
    } else {
        if k2 == k {
            lemma_alist_index_at(t, k2, i);
        } else if alist_index(s, k2) >= 0 {
            lemma_alist_index_at(t, k2, alist_index(s, k2));
        }
    }
}

/// Removing a key leaves it unmapped, and leaves the other keys as they were
/// when no key occurs twice.
pub proof fn lemma_alist_remove<W>(s: Seq<(Seq<char>, W)>, k: Seq<char>, k2: Seq<char>)
    requires
        keys_distinct(s),
    ensures
        alist_get(alist_remove(s, k), k2) == (if k2 == k {
            None
        } else {
            alist_get(s, k2)
        }),
        keys_distinct(alist_remove(s, k)),
{
    let t = alist_remove(s, k);
    lemma_alist_index(s, k);
    lemma_alist_index(s, k2);
    lemma_alist_index(t, k2);
    let i = alist_index(s, k);
    if i >= 0 {
        let j = alist_index(s, k2);
        if k2 != k && j >= 0 {
            if j < i {
                lemma_alist_index_at(t, k2, j);
            } else {
                assert(t[j - 1] == s[j]);
                assert forall|m: int| 0 <= m < j - 1 implies t[m].0 != k2 by {
                    if m >= i {
                        assert(t[m] == s[m + 1]);
                    }
                }
                lemma_alist_index_at(t, k2, j - 1);
            }
        } else if k2 == k {
            assert forall|m: int| 0 <= m < t.len() implies t[m].0 != k2 by {
                if m >= i {
                    assert(t[m] == s[m + 1]);
                }
            }
        } else {
            assert forall|m: int| 0 <= m < t.len() implies t[m].0 != k2 by {
                if m >= i {
                    assert(t[m] == s[m + 1]);
                }
            }
        }
    }
}

/// `s` with each pair of `entries` set in turn.
pub open spec fn set_all<W>(s: Seq<(Seq<char>, W)>, entries: Seq<(Seq<char>, W)>) -> Seq<(Seq<char>, W)>
    decreases entries.len(),
{
    if entries.len() == 0 {
        s
    } else {
        alist_set(set_all(s, entries.drop_last()), entries.last().0, entries.last().1)
    }
}

/// Looking up a key after appending a pair.
pub proof fn lemma_alist_get_push<W>(s: Seq<(Seq<char>, W)>, x: (Seq<char>, W), k: Seq<char>)
    ensures
        alist_get(s.push(x), k) == (if alist_contains(s, k) {
            alist_get(s, k)
        } else if x.0 == k {
            Some(x.1)
        } else {
            None
        }),
{
    let t = s.push(x);
    lemma_alist_index(s, k);
    lemma_alist_index(t, k);
    if alist_contains(s, k) {
        lemma_alist_index_at(t, k, alist_index(s, k));
    } else if x.0 == k {
        lemma_alist_index_at(t, k, s.len() as int);
    }
}

/// After setting pairs with distinct keys, a key maps to the value of its
/// pair, or to what it mapped to before when it has none; setting keeps keys
/// distinct.
pub proof fn lemma_set_all<W>(s: Seq<(Seq<char>, W)>, entries: Seq<(Seq<char>, W)>, k: Seq<char>)
    requires
        keys_distinct(entries),
    ensures
        alist_get(set_all(s, entries), k) == (if alist_contains(entries, k) {
            alist_get(entries, k)
        } else {
            alist_get(s, k)
        }),
        keys_distinct(s) ==> keys_distinct(set_all(s, entries)),
    decreases entries.len(),
{
    if entries.len() > 0 {
        let e1 = entries.drop_last();
        let x = entries.last();
        assert(keys_distinct(e1));
        lemma_set_all(s, e1, k);
        lemma_set_all(s, e1, x.0);
        lemma_alist_set(set_all(s, e1), x.0, x.1, k);
        assert(entries =~= e1.push(x));
        lemma_alist_get_push(e1, x, k);
        if x.0 == k {
            lemma_alist_index(e1, k);
            if alist_contains(e1, k) {
                let j = alist_index(e1, k);
                assert(entries[j].0 == entries[entries.len() - 1].0);
            }
        }
    }
}

/// A value that can be duplicated with its view kept.
pub trait ViewClone: View + Sized {
    fn view_clone(&self) -> (res: Self)
        ensures
            res@ == self@,
    ;
}

impl ViewClone for i32 {
    fn view_clone(&self) -> (res: i32) {
        *self
    }
}

/// The map: a vector of (key, value) pairs with distinct keys.
pub struct StrMap<V: View> {
    entries: Vec<(String, V)>,
}

impl<V: View> View for StrMap<V> {
    type V = Seq<(Seq<char>, V::V)>;

    closed spec fn view(&self) -> Seq<(Seq<char>, V::V)> {
        Seq::new(self.entries@.len(), |i: int| (self.entries@[i].0@, self.entries@[i].1@))
    }
}

impl<V: View> StrMap<V> {
    /// No key occurs twice: every operation keeps it so.
    #[verifier::type_invariant]
    pub open spec fn wf(&self) -> bool {
        keys_distinct(self@)
    }

    /// An empty map.
    pub fn new() -> (res: Self)
        ensures
            res@ == Seq::<(Seq<char>, V::V)>::empty(),
            keys_distinct(res@),
    {
        let res = StrMap { entries: Vec::new() };
        assert(res@ =~= Seq::<(Seq<char>, V::V)>::empty());
        res
    }

    /// The number of keys.
    pub fn len(&self) -> (res: usize)
        ensures
            res == self@.len(),
    {
        self.entries.len()
    }

    /// The key of the `i`-th pair.
    pub fn key_at(&self, i: usize) -> (res: &String)
        requires
            i < self@.len(),
        ensures
            res@ == self@[i as int].0,
    {
        &self.entries[i].0
    }

    /// The value of the `i`-th pair.
    pub fn val_at(&self, i: usize) -> (res: &V)
        requires
            i < self@.len(),
        ensures
            res@ == self@[i as int].1,
    {
        &self.entries[i].1
    }

    /// The index of the pair of `k`, if any.
    pub fn find(&self, k: &str) -> (res: Option<usize>)
        ensures
            match res {
                Some(i) => i == alist_index(self@, k@),
                None => alist_index(self@, k@) < 0,
            },
    {
        let key = k.to_owned();
        let n = self.entries.len();
        let mut i: usize = 0;
        while i < n
            invariant
                n == self@.len(),
                key@ == k@,
                i <= n,
                forall|j: int| 0 <= j < i ==> self@[j].0 != k@,
            decreases n - i,
        {
            if self.entries[i].0 == key {
                proof {
                    lemma_alist_index_at(self@, k@, i as int);
                }
                return Some(i);
            }
            i = i + 1;
        }
        proof {
            lemma_alist_index(self@, k@);
        }
        None
    }

    /// The value that `k` maps to, if any.
    pub fn get(&self, k: &str) -> (res: Option<&V>)
        ensures
            match res {
                Some(v) => alist_get(self@, k@) == Some(v@),
                None => alist_get(self@, k@) is None,
            },
    {
        proof {
            lemma_alist_index(self@, k@);
        }
        match self.find(k) {
            Some(i) => Some(&self.entries[i].1),
            None => None,
        }
    }

    /// Whether `k` is a key.
    pub fn contains_key(&self, k: &str) -> (res: bool)
        ensures
            res == alist_contains(self@, k@),
    {
        self.find(k).is_some()
    }

    /// Maps `k` to `v`, in place where `k` is a key already, else at the end.
    pub fn insert(&mut self, k: String, v: V)
        ensures
            final(self)@ == alist_set(old(self)@, k@, v@),
            keys_distinct(final(self)@),
    {
        proof {
            use_type_invariant(&*self);
            lemma_alist_index(self@, k@);
            lemma_alist_set(self@, k@, v@, k@);
        }
        let ghost before = self@;
        let found = self.find(k.as_str());
        let mut entries: Vec<(String, V)> = Vec::new();
        std::mem::swap(&mut entries, &mut self.entries);
        let ghost ev = entries@;
        match found {
            Some(i) => {
                entries.set(i, (k, v));
            },
            None => {
                entries.push((k, v));
            },
        }
        let ghost m = StrMap { entries };
        assert(m@ =~= alist_set(before, k@, v@)) by {
            assert(ev.len() == before.len());
        }
        self.entries = entries;
        assert(self@ =~= alist_set(before, k@, v@));
    }

    /// Removes the pair of `k`, if any, keeping the order of the others.
    pub fn remove(&mut self, k: &str)
        ensures
            final(self)@ == alist_remove(old(self)@, k@),
            keys_distinct(final(self)@),
    {
        proof {
            use_type_invariant(&*self);
            lemma_alist_index(self@, k@);
            lemma_alist_remove(self@, k@, k@);
        }
        let ghost before = self@;
        match self.find(k) {
            Some(i) => {
                let mut entries: Vec<(String, V)> = Vec::new();
                std::mem::swap(&mut entries, &mut self.entries);
                let _ = entries.remove(i);
                let ghost m = StrMap { entries };
                assert(m@ =~= alist_remove(before, k@));
                self.entries = entries;
                assert(self@ =~= alist_remove(before, k@));
            },
            None => {},
        }
    }
}

impl<V: ViewClone> StrMap<V> {
    /// A copy of the map.
    pub fn clone_map(&self) -> (res: Self)
        ensures
            res@ == self@,
    {
        proof {
            use_type_invariant(self);
        }
        let mut entries: Vec<(String, V)> = Vec::new();
        let n = self.entries.len();
        for i in 0..n
            invariant
                n == self@.len(),
                entries@.len() == i,
                forall|j: int|
                    0 <= j < i ==> (#[trigger] entries@[j]).0@ == self@[j].0 && entries@[j].1@
                        == self@[j].1,
        {
            let k = self.entries[i].0.clone();
            let v = self.entries[i].1.view_clone();
            entries.push((k, v));
        }
        assert(StrMap { entries }@ =~= self@);
        StrMap { entries }
    }
}


impl<V: ViewClone> Clone for StrMap<V> {
    /// A copy of the map.
    fn clone(&self) -> (res: Self)
        ensures
            res@ == self@,
    {
        self.clone_map()
    }
}

} // verus!
