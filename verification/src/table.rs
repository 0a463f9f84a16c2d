//! A table of named entries, kept in insertion order with unique names.

use vstd::prelude::*;
use crate::text::str_equal;

verus! {

/// Entries keyed by name; a name occurs at most once.
pub struct Table<V> {
    pub entries: Vec<(String, V)>,
}

/// The index of the first entry at or after `i` whose name is `k`, or -1.
pub open spec fn find_from<V>(s: Seq<(String, V)>, k: Seq<char>, i: int) -> int
    decreases s.len() - i,
{
    if i < 0 || i >= s.len() {
        -1
    } else if s[i].0@ == k {
        i
    } else {
        find_from(s, k, i + 1)
    }
}

/// The index of the entry named `k`, or -1.
pub open spec fn find<V>(s: Seq<(String, V)>, k: Seq<char>) -> int {
    find_from(s, k, 0)
}

/// The value of the entry named `k`, if any.
pub open spec fn lookup<V>(s: Seq<(String, V)>, k: Seq<char>) -> Option<V> {
    let i = find(s, k);
    if 0 <= i < s.len() {
        Some(s[i].1)
    } else {
        None
    }
}

/// No name occurs twice.
pub open spec fn unique_names<V>(s: Seq<(String, V)>) -> bool {
    forall|i: int, j: int| 0 <= i < j < s.len() ==> s[i].0@ != s[j].0@
}

/// `find_from` gives the first index at or after `i` with name `k`.
pub proof fn lemma_find_from<V>(s: Seq<(String, V)>, k: Seq<char>, i: int)
    requires
        0 <= i <= s.len(),
    ensures
        find_from(s, k, i) == -1 || (i <= find_from(s, k, i) < s.len() && s[find_from(s, k, i)].0@ == k),
        find_from(s, k, i) == -1 ==> forall|j: int| i <= j < s.len() ==> s[j].0@ != k,
        find_from(s, k, i) != -1 ==> forall|j: int| i <= j < find_from(s, k, i) ==> s[j].0@ != k,
    decreases s.len() - i,
{
    if i < s.len() && s[i].0@ != k {
        lemma_find_from(s, k, i + 1);
    }
}

/// Two tables whose names match `n` at the same indices find `n` at the same index.
pub proof fn lemma_find_same<V>(s1: Seq<(String, V)>, s2: Seq<(String, V)>, n: Seq<char>, i: int)
    requires
        s1.len() == s2.len(),
        0 <= i <= s1.len(),
        forall|j: int| 0 <= j < s1.len() ==> (#[trigger] s1[j].0@ == n) == (s2[j].0@ == n),
    ensures
        find_from(s1, n, i) == find_from(s2, n, i),
    decreases s1.len() - i,
{
    if i < s1.len() {
        assert((s1[i].0@ == n) == (s2[i].0@ == n));
        lemma_find_same(s1, s2, n, i + 1);
    }
}

/// An entry whose name matches is the first with that name, when names are unique.
pub proof fn lemma_find_unique<V>(s: Seq<(String, V)>, k: Seq<char>, i: int)
    requires
        unique_names(s),
        0 <= i < s.len(),
        s[i].0@ == k,
    ensures
        find(s, k) == i,
{
    lemma_find_from(s, k, 0);
}

impl<V> Table<V> {
    /// An empty table.
    pub fn new() -> (r: Table<V>)
        ensures
            r.entries@.len() == 0,
    {
        Table { entries: Vec::new() }
    }

    /// The index of the entry named `k`, if any.
    pub fn position(&self, k: &str) -> (r: Option<usize>)
        ensures
            r matches Some(i) ==> i == find(self.entries@, k@) && i < self.entries@.len(),
            r is None ==> find(self.entries@, k@) == -1,
    {
        let mut i: usize = 0;
        while i < self.entries.len()
            invariant
                i <= self.entries@.len(),
                forall|j: int| 0 <= j < i ==> self.entries@[j].0@ != k@,
            decreases self.entries@.len() - i,
        {
            if str_equal(self.entries[i].0.as_str(), k) {
                proof {
                    lemma_find_from(self.entries@, k@, 0);
                }
                return Some(i);
            }
            i = i + 1;
        }
        proof {
            lemma_find_from(self.entries@, k@, 0);
        }
        None
    }

    /// Whether an entry is named `k`.
    pub fn contains_key(&self, k: &str) -> (r: bool)
        ensures
            r == (lookup(self.entries@, k@) is Some),
    {
        self.position(k).is_some()
    }

    /// The value of the entry named `k`, if any.
    pub fn get(&self, k: &str) -> (r: Option<&V>)
        ensures
            r matches Some(v) ==> lookup(self.entries@, k@) == Some(*v),
            r is None ==> lookup(self.entries@, k@) is None,
    {
        match self.position(k) {
            Some(i) => Some(&self.entries[i].1),
            None => None,
        }
    }

    /// Sets the entry named `k` to `v`, replacing an existing entry of that
    /// name in place, or adding one at the end.
    pub fn insert(&mut self, k: String, v: V)
        requires
            unique_names(old(self).entries@),
        ensures
            unique_names(final(self).entries@),
            lookup(final(self).entries@, k@) == Some(v),
            forall|n: Seq<char>| n != k@ ==> #[trigger] lookup(final(self).entries@, n) == lookup(old(self).entries@, n),
            lookup(old(self).entries@, k@) is Some ==> final(self).entries@.len() == old(self).entries@.len(),
            lookup(old(self).entries@, k@) is None ==> final(self).entries@ == old(self).entries@.push((k, v)),
    {
        let ghost old_entries = self.entries@;
        match self.position(k.as_str()) {
            Some(i) => {
                let ghost key = k@;
                self.entries.set(i, (k, v));
                proof {
                    lemma_find_from(old_entries, key, 0);
                    assert forall|n: Seq<char>| n != key implies #[trigger] lookup(self.entries@, n) == lookup(old_entries, n) by {
                        assert forall|j: int| 0 <= j < old_entries.len() implies (#[trigger] old_entries[j].0@ == n) == (self.entries@[j].0@ == n) by {
                            if j == i {
                                assert(old_entries[j].0@ == key);
                            }
                        }
                        lemma_find_same(old_entries, self.entries@, n, 0);
                        lemma_find_from(old_entries, n, 0);
                        let a = find(old_entries, n);
                        if a != -1 {
                            assert(a != i);
                        }
                    }
                    lemma_find_unique(self.entries@, key, i as int);
                }
            },
            None => {
                let ghost key = k@;
                self.entries.push((k, v));
                proof {
                    lemma_find_from(old_entries, key, 0);
                    assert(self.entries@[old_entries.len() as int].0@ == key);
                    lemma_find_unique(self.entries@, key, old_entries.len() as int);
                    assert forall|n: Seq<char>| n != key implies #[trigger] lookup(self.entries@, n) == lookup(old_entries, n) by {
                        lemma_find_from(old_entries, n, 0);
                        lemma_find_from(self.entries@, n, 0);
                        let a = find(old_entries, n);
                        let b = find(self.entries@, n);
                        if a != -1 {
                            assert(self.entries@[a] == old_entries[a]);
                        } else if b != -1 {
                            assert(b < old_entries.len());
                            assert(self.entries@[b] == old_entries[b]);
                        }
                    }
                }
            },
        }
    }
}

/// After setting `k` to `v`, looking `k` up gives `v`, and every other name
/// looks up as before.
pub proof fn lemma_insert_then_lookup<V>(before: Seq<(String, V)>, after: Seq<(String, V)>, k: Seq<char>, v: V, n: Seq<char>)
    requires
        lookup(after, k) == Some(v),
        forall|m: Seq<char>| m != k ==> #[trigger] lookup(after, m) == lookup(before, m),
    ensures
        lookup(after, n) == if n == k { Some(v) } else { lookup(before, n) },
{
}

/// The value of the entry named `k` in `entries`, if any.
pub fn get_entry<'b, V>(entries: &'b Vec<(String, V)>, k: &str) -> (r: Option<&'b V>)
    ensures
        r matches Some(v) ==> lookup(entries@, k@) == Some(*v),
        r is None ==> lookup(entries@, k@) is None,
{
    let mut i: usize = 0;
    while i < entries.len()
        invariant
            i <= entries@.len(),
            forall|j: int| 0 <= j < i ==> entries@[j].0@ != k@,
        decreases entries@.len() - i,
    {
        if str_equal(entries[i].0.as_str(), k) {
            proof {
                lemma_find_from(entries@, k@, 0);
            }
            return Some(&entries[i].1);
        }
        i = i + 1;
    }
    proof {
        lemma_find_from(entries@, k@, 0);
    }
    None
}

/// Some entry is named `k`.
pub open spec fn has_name<V>(s: Seq<(String, V)>, k: Seq<char>) -> bool {
    exists|j: int| 0 <= j < s.len() && (#[trigger] s[j]).0@ == k
}

/// A name looks up to something exactly when some entry has it.
pub proof fn lemma_lookup_iff_has_name<V>(s: Seq<(String, V)>, k: Seq<char>)
    ensures
        lookup(s, k) is Some <==> has_name(s, k),
{
    lemma_find_from(s, k, 0);
    if lookup(s, k) is Some {
        assert(s[find(s, k)].0@ == k);
    }
}

/// Tables with the same names at the same places look every name up at
/// the same place, and have unique names together.
pub proof fn lemma_same_keys<V, W>(s1: Seq<(String, V)>, s2: Seq<(String, W)>)
    requires
        s1.len() == s2.len(),
        forall|j: int| 0 <= j < s1.len() ==> (#[trigger] s1[j]).0 == s2[j].0,
    ensures
        forall|n: Seq<char>| #[trigger] find(s1, n) == find(s2, n),
        forall|n: Seq<char>| (#[trigger] lookup(s1, n) is Some) == (lookup(s2, n) is Some),
        unique_names(s1) == unique_names(s2),
{
    assert forall|n: Seq<char>| #[trigger] find(s1, n) == find(s2, n) by {
        lemma_find_same_general(s1, s2, n, 0);
    }
    assert forall|n: Seq<char>| (#[trigger] lookup(s1, n) is Some) == (lookup(s2, n) is Some) by {
        lemma_find_same_general(s1, s2, n, 0);
    }
    if unique_names(s1) {
        assert forall|i: int, j: int| 0 <= i < j < s2.len() implies s2[i].0@ != s2[j].0@ by {
            assert(s1[i].0 == s2[i].0);
            assert(s1[j].0 == s2[j].0);
        }
    }
    if unique_names(s2) {
        assert forall|i: int, j: int| 0 <= i < j < s1.len() implies s1[i].0@ != s1[j].0@ by {
            assert(s1[i].0 == s2[i].0);
            assert(s1[j].0 == s2[j].0);
        }
    }
}

/// Tables with the same names at the same places find a name at the same place.
proof fn lemma_find_same_general<V, W>(s1: Seq<(String, V)>, s2: Seq<(String, W)>, n: Seq<char>, i: int)
    requires
        s1.len() == s2.len(),
        0 <= i <= s1.len(),
        forall|j: int| 0 <= j < s1.len() ==> (#[trigger] s1[j]).0 == s2[j].0,
    ensures
        find_from(s1, n, i) == find_from(s2, n, i),
    decreases s1.len() - i,
{
    if i < s1.len() {
        assert(s1[i].0 == s2[i].0);
        lemma_find_same_general(s1, s2, n, i + 1);
    }
}

} // verus!
