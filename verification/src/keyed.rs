//! A map from string keys to values that keeps the order in which keys were
//! first inserted, holds each key once, and replaces the value of a key that is
//! inserted again.

use vstd::prelude::*;

verus! {

/// No key occurs twice.
pub open spec fn distinct_keys<T>(s: Seq<(Seq<char>, T)>) -> bool {
    forall|i: int, j: int| 0 <= i < s.len() && 0 <= j < s.len() && i != j ==> s[i].0 != s[j].0
}

/// The key `k` occurs in `s`.
pub open spec fn has_key<T>(s: Seq<(Seq<char>, T)>, k: Seq<char>) -> bool {
    exists|i: int| 0 <= i < s.len() && s[i].0 == k
}

/// `i` is the first position of the key `k` in `s`.
pub open spec fn first_position<T>(s: Seq<(Seq<char>, T)>, k: Seq<char>, i: int) -> bool {
    &&& 0 <= i < s.len()
    &&& s[i].0 == k
    &&& forall|j: int| 0 <= j < i ==> s[j].0 != k
}

/// `s` with the value of `k` set to `v`: the entry of `k` keeps its place, a new key goes last.
pub open spec fn insert_entry<T>(s: Seq<(Seq<char>, T)>, k: Seq<char>, v: T) -> Seq<(Seq<char>, T)> {
    if exists|i: int| first_position(s, k, i) {
        let i = choose|i: int| first_position(s, k, i);
        s.update(i, (k, v))
    } else {
        s.push((k, v))
    }
}

/// The entries of `s` inserted one after another into an empty map.
pub open spec fn insert_all<T>(s: Seq<(Seq<char>, T)>) -> Seq<(Seq<char>, T)>
    decreases s.len(),
{
    if s.len() == 0 {
        Seq::empty()
    } else {
        insert_entry(insert_all(s.drop_last()), s.last().0, s.last().1)
    }
}

/// Inserting keeps the keys distinct.
pub proof fn lemma_insert_distinct<T>(s: Seq<(Seq<char>, T)>, k: Seq<char>, v: T)
    requires
        distinct_keys(s),
    ensures
        distinct_keys(insert_entry(s, k, v)),
        has_key(insert_entry(s, k, v), k),
{
    let r = insert_entry(s, k, v);
    if exists|i: int| first_position(s, k, i) {
        let i = choose|i: int| first_position(s, k, i);
        assert(r[i].0 == k);
    } else {
        assert(!has_key(s, k)) by {
            if has_key(s, k) {
                let i = choose|i: int| 0 <= i < s.len() && s[i].0 == k;
                assert(first_position(s, k, i));
            }
        }
        assert(r[s.len() as int].0 == k);
    }
}

/// What inserting does, in a map with distinct keys: an existing key keeps its
/// place and takes the new value, every other entry stays as it was; a new key
/// is appended with its value.
pub proof fn lemma_insert_entry_law<T>(s: Seq<(Seq<char>, T)>, k: Seq<char>, v: T)
    requires
        distinct_keys(s),
    ensures
        has_key(s, k) ==> insert_entry(s, k, v).len() == s.len() && forall|i: int|
            0 <= i < s.len() ==> #[trigger] insert_entry(s, k, v)[i] == if s[i].0 == k {
                (k, v)
            } else {
                s[i]
            },
        !has_key(s, k) ==> insert_entry(s, k, v) == s.push((k, v)),
        insert_all(Seq::<(Seq<char>, T)>::empty()) == Seq::<(Seq<char>, T)>::empty(),
        insert_all(s.push((k, v))) == insert_entry(insert_all(s), k, v),
{
    if has_key(s, k) {
        let w = choose|i: int| 0 <= i < s.len() && s[i].0 == k;
        assert(first_position(s, k, w));
        let c = choose|c: int| first_position(s, k, c);
        assert(c == w);
    } else {
        assert(!exists|c: int| first_position(s, k, c));
    }
    assert(s.push((k, v)).drop_last() =~= s);
}

/// Inserting entries whose keys are distinct, one after another, gives them back in order.
pub proof fn lemma_insert_all_distinct<T>(s: Seq<(Seq<char>, T)>)
    requires
        distinct_keys(s),
    ensures
        insert_all(s) == s,
    decreases s.len(),
{
    if s.len() > 0 {
        let p = s.drop_last();
        assert(distinct_keys(p));
        lemma_insert_all_distinct(p);
        assert(!has_key(p, s.last().0)) by {
            if has_key(p, s.last().0) {
                let i = choose|i: int| 0 <= i < p.len() && p[i].0 == s.last().0;
                assert(s[i].0 == s[s.len() - 1].0);
            }
        }
        assert(p.push(s.last()) =~= s);
    }
}

/// Entries under string keys, each key once, in the order of first insertion.
#[derive(Debug, PartialEq, Eq)]
pub struct KeyedList<V> {
    entries: Vec<(String, V)>,
}

impl<V> KeyedList<V> {
    /// No key occurs twice.
    #[verifier::type_invariant]
    spec fn keys_distinct(self) -> bool {
        forall|i: int, j: int|
            0 <= i < self.entries@.len() && 0 <= j < self.entries@.len() && i != j
                ==> (#[trigger] self.entries@[i]).0@ != (#[trigger] self.entries@[j]).0@
    }
}

impl<V: DeepView> View for KeyedList<V> {
    type V = Seq<(Seq<char>, V::V)>;

    closed spec fn view(&self) -> Seq<(Seq<char>, V::V)> {
        self.entries.deep_view()
    }
}

impl<V: DeepView> DeepView for KeyedList<V> {
    type V = Seq<(Seq<char>, V::V)>;

    closed spec fn deep_view(&self) -> Seq<(Seq<char>, V::V)> {
        self@
    }
}

/// The deep view of a map is its view.
pub broadcast proof fn lemma_deep_view_is_view<V: DeepView>(m: KeyedList<V>)
    ensures
        #[trigger] m.deep_view() == m@,
{
}

/// Each value in the view of a map is the deep view of the value at that position.
pub proof fn lemma_view_values<V: DeepView>(m: KeyedList<V>)
    ensures
        forall|i: int| 0 <= i < m@.len() ==> m@[i].1 == (#[trigger] m.value_at(i)).deep_view(),
{
    assert forall|i: int| 0 <= i < m@.len() implies m@[i].1 == (#[trigger] m.value_at(i)).deep_view() by {
        assert(m.entries.deep_view()[i] == m.entries@[i].deep_view());
    }
}

impl<V: DeepView> KeyedList<V> {
    /// The value at position `i`.
    pub closed spec fn value_at(&self, i: int) -> V {
        self.entries@[i].1
    }

    /// Distinct keys in the entries are distinct keys in the view.
    proof fn lemma_view_distinct(&self)
        requires
            self.keys_distinct(),
        ensures
            distinct_keys(self@),
    {
        assert forall|i: int, j: int|
            0 <= i < self@.len() && 0 <= j < self@.len() && i != j implies self@[i].0 != self@[j].0 by {
            assert(self@[i] == self.entries@[i].deep_view());
            assert(self@[j] == self.entries@[j].deep_view());
            assert(self.entries@[i].0@ != self.entries@[j].0@);
        }
    }

    /// The empty map.
    pub fn new() -> (m: Self)
        ensures
            m@ == Seq::<(Seq<char>, V::V)>::empty(),
            distinct_keys(m@),
    {
        let m = KeyedList { entries: Vec::new() };
        assert(m@ =~= Seq::<(Seq<char>, V::V)>::empty());
        m
    }

    /// The number of keys.
    pub fn len(&self) -> (n: usize)
        ensures
            n == self@.len(),
            distinct_keys(self@),
    {
        proof {
            use_type_invariant(self);
            self.lemma_view_distinct();
        }
        self.entries.len()
    }

    /// Whether there is no key.
    pub fn is_empty(&self) -> (b: bool)
        ensures
            b == (self@.len() == 0),
    {
        self.entries.len() == 0
    }

    /// The entries in order.
    pub fn entries(&self) -> (e: &Vec<(String, V)>)
        ensures
            e.deep_view() == self@,
            distinct_keys(self@),
    {
        proof {
            use_type_invariant(self);
            self.lemma_view_distinct();
        }
        &self.entries
    }

    /// The first position of `key`, if it is there.
    pub fn position(&self, key: &String) -> (r: Option<usize>)
        ensures
            r matches Some(i) ==> first_position(self@, key@, i as int),
            r is None ==> !has_key(self@, key@),
    {
        let mut i: usize = 0;
        while i < self.entries.len()
            invariant
                i <= self.entries.len(),
                forall|j: int| 0 <= j < i ==> self@[j].0 != key@,
            decreases self.entries.len() - i,
        {
            if self.entries[i].0 == *key {
                return Some(i);
            }
            i += 1;
        }
        None
    }

    /// Sets the value of `key`: an existing key keeps its place, a new key goes last.
    pub fn insert(&mut self, key: String, value: V)
        ensures
            final(self)@ == insert_entry(old(self)@, key@, value.deep_view()),
            distinct_keys(final(self)@),
    {
        proof {
            use_type_invariant(&*self);
            self.lemma_view_distinct();
        }
        let ghost old_view = self@;
        let ghost kv = key@;
        let ghost vv = value.deep_view();
        let pos = self.position(&key);
        let mut entries: Vec<(String, V)> = Vec::new();
        std::mem::swap(&mut entries, &mut self.entries);
        assert(entries.deep_view() == old_view);
        match pos {
            Some(i) => {
                entries.set(i, (key, value));
                proof {
                    let c = choose|c: int| first_position(old_view, kv, c);
                    assert(c == i);
                    assert(entries.deep_view() =~= old_view.update(i as int, (kv, vv)));
                }
            },
            None => {
                entries.push((key, value));
                proof {
                    assert(!exists|c: int| first_position(old_view, kv, c));
                    assert(entries.deep_view() =~= old_view.push((kv, vv)));
                }
            },
        }
        proof {
            lemma_insert_distinct(old_view, kv, vv);
            let nv = entries.deep_view();
            assert forall|i: int, j: int|
                0 <= i < entries@.len() && 0 <= j < entries@.len() && i != j implies (#[trigger] entries@[i]).0@ != (#[trigger] entries@[j]).0@ by {
                assert(nv[i] == entries@[i].deep_view());
                assert(nv[j] == entries@[j].deep_view());
                assert(nv[i].0 != nv[j].0);
            }
        }
        self.entries = entries;
    }

    /// The map that inserting each entry in turn gives.
    pub fn from_entries(entries: Vec<(String, V)>) -> (m: Self)
        ensures
            m@ == insert_all(entries.deep_view()),
            distinct_keys(m@),
    {
        let ghost all = entries.deep_view();
        let mut m = Self::new();
        proof {
            assert(all.take(0) =~= Seq::<(Seq<char>, V::V)>::empty());
        }
        for e in it: entries.into_iter()
            invariant
                it.seq() == entries@,
                all == entries.deep_view(),
                m@ == insert_all(all.take(it.index() as int)),
                distinct_keys(m@),
        {
            let ghost k = it.index() as int;
            assert(all.take(k + 1).drop_last() =~= all.take(k));
            assert(all[k] == e.deep_view());
            m.insert(e.0, e.1);
        }
        assert(all.take(all.len() as int) =~= all);
        m
    }
}

} // verus!
