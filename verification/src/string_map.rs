//! Finite maps and sets keyed by strings.
//!
//! The entries live in a vector whose keys are pairwise distinct; contracts
//! speak of the mathematical map (or set) that the entries stand for.

use vstd::prelude::*;

verus! {

/// Whether no two entries of `s` share a key.
pub open spec fn distinct_keys<V>(s: Seq<(Seq<char>, V)>) -> bool {
    forall|i: int, j: int| 0 <= i < j < s.len() ==> s[i].0 != s[j].0
}

/// The map that a list of entries stands for. Where a key occurs more than
/// once, the entry nearest the end decides.
pub open spec fn pairs_to_map<V>(s: Seq<(Seq<char>, V)>) -> Map<Seq<char>, V>
    decreases s.len(),
{
    if s.len() == 0 {
        Map::empty()
    } else {
        pairs_to_map(s.drop_last()).insert(s.last().0, s.last().1)
    }
}

/// The entries that a vector of pairs holds.
pub open spec fn pairs_view<V>(v: Seq<(String, V)>) -> Seq<(Seq<char>, V)> {
    v.map_values(|e: (String, V)| (e.0@, e.1))
}

/// The keys of the map are the keys of the entries, and there are finitely many.
pub proof fn lemma_pairs_dom<V>(s: Seq<(Seq<char>, V)>)
    ensures
        pairs_to_map(s).dom().finite(),
        forall|k: Seq<char>|
            pairs_to_map(s).contains_key(k) <==> exists|i: int| 0 <= i < s.len() && #[trigger] s[i].0 == k,
    decreases s.len(),
{
    if s.len() > 0 {
        let t = s.drop_last();
        lemma_pairs_dom(t);
        assert forall|k: Seq<char>|
            pairs_to_map(s).contains_key(k) <==> exists|i: int| 0 <= i < s.len() && #[trigger] s[i].0 == k by {
            if pairs_to_map(s).contains_key(k) {
                if k == s.last().0 {
                    assert(s[s.len() - 1].0 == k);
                } else {
                    let i = choose|i: int| 0 <= i < t.len() && #[trigger] t[i].0 == k;
                    assert(s[i].0 == k);
                }
            }
            if exists|i: int| 0 <= i < s.len() && #[trigger] s[i].0 == k {
                let i = choose|i: int| 0 <= i < s.len() && #[trigger] s[i].0 == k;
                if i < s.len() - 1 {
                    assert(t[i].0 == k);
                }
            }
        }
    }
}

/// With distinct keys, every entry's value is what the map holds at its key.
pub proof fn lemma_pairs_lookup<V>(s: Seq<(Seq<char>, V)>, i: int)
    requires
        distinct_keys(s),
        0 <= i < s.len(),
    ensures
        pairs_to_map(s).contains_key(s[i].0),
        pairs_to_map(s)[s[i].0] == s[i].1,
    decreases s.len(),
{
    if i < s.len() - 1 {
        let t = s.drop_last();
        assert(distinct_keys(t));
        lemma_pairs_lookup(t, i);
        assert(t[i] == s[i]);
    }
}

/// With distinct keys, the map has as many keys as there are entries.
pub proof fn lemma_pairs_len<V>(s: Seq<(Seq<char>, V)>)
    requires
        distinct_keys(s),
    ensures
        pairs_to_map(s).dom().finite(),
        pairs_to_map(s).dom().len() == s.len(),
    decreases s.len(),
{
    lemma_pairs_dom(s);
    if s.len() > 0 {
        let t = s.drop_last();
        assert(distinct_keys(t));
        lemma_pairs_len(t);
        lemma_pairs_dom(t);
        if pairs_to_map(t).contains_key(s.last().0) {
            let i = choose|i: int| 0 <= i < t.len() && #[trigger] t[i].0 == s.last().0;
            assert(s[i].0 == s[s.len() - 1].0);
        }
    }
}

/// Dropping entry `i` of a list with distinct keys removes its key from the map.
pub proof fn lemma_pairs_remove<V>(s: Seq<(Seq<char>, V)>, i: int)
    requires
        distinct_keys(s),
        0 <= i < s.len(),
    ensures
        distinct_keys(s.remove(i)),
        pairs_to_map(s.remove(i)) == pairs_to_map(s).remove(s[i].0),
{
    let r = s.remove(i);
    assert(distinct_keys(r)) by {
        assert forall|a: int, b: int| 0 <= a < b < r.len() implies r[a].0 != r[b].0 by {
            let a2 = if a < i { a } else { a + 1 };
            let b2 = if b < i { b } else { b + 1 };
            assert(r[a] == s[a2] && r[b] == s[b2]);
        }
    }
    lemma_pairs_dom(s);
    lemma_pairs_dom(r);
    let lhs = pairs_to_map(r);
    let rhs = pairs_to_map(s).remove(s[i].0);
    assert forall|k: Seq<char>| lhs.contains_key(k) <==> rhs.contains_key(k) by {
        if lhs.contains_key(k) {
            let a = choose|a: int| 0 <= a < r.len() && #[trigger] r[a].0 == k;
            let a2 = if a < i { a } else { a + 1 };
            assert(r[a] == s[a2]);
            assert(s[a2].0 == k);
        }
        if rhs.contains_key(k) {
            let a = choose|a: int| 0 <= a < s.len() && #[trigger] s[a].0 == k;
            let a2 = if a < i { a } else { a - 1 };
            assert(r[a2] == s[a]);
            assert(r[a2].0 == k);
        }
    }
    assert forall|k: Seq<char>| lhs.contains_key(k) implies lhs[k] == rhs[k] by {
        let a = choose|a: int| 0 <= a < r.len() && #[trigger] r[a].0 == k;
        let a2 = if a < i { a } else { a + 1 };
        assert(r[a] == s[a2]);
        lemma_pairs_lookup(r, a);
        lemma_pairs_lookup(s, a2);
    }
    assert(lhs =~= rhs);
}

/// A finite map from strings to values.
#[derive(Debug)]
pub struct StringMap<V> {
    entries: Vec<(String, V)>,
}

impl<V> View for StringMap<V> {
    type V = Map<Seq<char>, V>;

    open spec fn view(&self) -> Map<Seq<char>, V> {
        pairs_to_map(self.entries())
    }
}

impl<V: Clone> Clone for StringMap<V> {
    /// A map with the same keys, each value a clone of the value here.
    fn clone(&self) -> (m: Self)
        ensures
            m.entries().len() == self.entries().len(),
            forall|i: int|
                0 <= i < self.entries().len() ==> (#[trigger] m.entries()[i]).0 == self.entries()[i].0
                    && cloned(self.entries()[i].1, m.entries()[i].1),
    {
        proof {
            use_type_invariant(self);
        }
        let mut entries: Vec<(String, V)> = Vec::new();
        let mut i: usize = 0;
        while i < self.entries.len()
            invariant
                i <= self.entries@.len(),
                entries@.len() == i,
                forall|j: int|
                    0 <= j < i ==> (#[trigger] entries@[j]).0@ == self.entries@[j].0@ && cloned(
                        self.entries@[j].1,
                        entries@[j].1,
                    ),
            decreases self.entries@.len() - i,
        {
            entries.push((self.entries[i].0.clone(), self.entries[i].1.clone()));
            i += 1;
        }
        proof {
            let after = pairs_view(entries@);
            assert forall|a: int, b: int| 0 <= a < b < after.len() implies after[a].0 != after[b].0 by {
                assert(self.entries()[a].0 == after[a].0);
                assert(self.entries()[b].0 == after[b].0);
            }
        }
        StringMap { entries }
    }
}

impl<V> StringMap<V> {
    #[verifier::type_invariant]
    spec fn inv(&self) -> bool {
        distinct_keys(self.entries())
    }

    /// The entries in the order in which `key_at` and `value_at` number them.
    pub closed spec fn entries(&self) -> Seq<(Seq<char>, V)> {
        pairs_view(self.entries@)
    }

    /// States what always holds of a map: the keys of its entries are distinct.
    pub fn distinct(&self)
        ensures
            distinct_keys(self.entries()),
            self@.dom().finite(),
            self@.dom().len() == self.entries().len(),
    {
        proof {
            use_type_invariant(self);
            lemma_pairs_len(self.entries());
        }
    }

    /// The empty map.
    pub fn new() -> (m: Self)
        ensures
            m@ == Map::<Seq<char>, V>::empty(),
            m.entries().len() == 0,
    {
        let m = StringMap { entries: Vec::new() };
        assert(m.entries() =~= Seq::empty());
        m
    }

    /// The map that the entries `pairs` stand for. Where a key occurs more
    /// than once, the entry nearest the end decides.
    pub fn from_pairs(pairs: Vec<(String, V)>) -> (m: Self)
        ensures
            m@ == pairs_to_map(pairs_view(pairs@)),
    {
        let mut m = Self::new();
        let ghost all = pairs_view(pairs@);
        proof {
            assert(all.take(0) =~= Seq::empty());
        }
        for e in it: pairs
            invariant
                all == pairs_view(it.seq()),
                m@ == pairs_to_map(all.take(it.index() as int)),
                it.index() == it.seq().len() ==> m@ == pairs_to_map(all),
        {
            proof {
                let done = it.index() as int;
                assert(all.take(done + 1).drop_last() =~= all.take(done));
                assert(all.take(done + 1).last() == (e.0@, e.1));
                assert(all.take(all.len() as int) =~= all);
            }
            m.insert(e.0, e.1);
        }
        m
    }

    /// The entries of the map, each key with its value.
    pub fn into_pairs(self) -> (pairs: Vec<(String, V)>)
        ensures
            pairs_view(pairs@) == self.entries(),
    {
        self.entries
    }

    /// The number of keys.
    pub fn len(&self) -> (n: usize)
        ensures
            n == self.entries().len(),
            n == self@.dom().len(),
    {
        proof {
            use_type_invariant(self);
            lemma_pairs_len(self.entries());
        }
        self.entries.len()
    }

    /// Whether the map has no key.
    pub fn is_empty(&self) -> (b: bool)
        ensures
            b == (self.entries().len() == 0),
            b == (self@ == Map::<Seq<char>, V>::empty()),
    {
        proof {
            use_type_invariant(self);
            lemma_pairs_dom(self.entries());
            if self.entries().len() > 0 {
                assert(self.entries()[0].0 == self.entries()[0].0);
                assert(self@.contains_key(self.entries()[0].0));
            } else {
                assert(self@ =~= Map::<Seq<char>, V>::empty());
            }
        }
        self.entries.len() == 0
    }

    /// The key of entry `i`.
    pub fn key_at(&self, i: usize) -> (k: &String)
        requires
            i < self.entries().len(),
        ensures
            k@ == self.entries()[i as int].0,
            self@.contains_key(k@),
    {
        proof {
            use_type_invariant(self);
            lemma_pairs_lookup(self.entries(), i as int);
        }
        &self.entries[i].0
    }

    /// The value of entry `i`.
    pub fn value_at(&self, i: usize) -> (v: &V)
        requires
            i < self.entries().len(),
        ensures
            *v == self.entries()[i as int].1,
            *v == self@[self.entries()[i as int].0],
    {
        proof {
            use_type_invariant(self);
            lemma_pairs_lookup(self.entries(), i as int);
        }
        &self.entries[i].1
    }

    /// Where `key` stands among the entries, if it is a key of the map.
    fn position(&self, key: &String) -> (p: Option<usize>)
        ensures
            match p {
                Some(i) => i < self.entries().len() && self.entries()[i as int].0 == key@,
                None => !self@.contains_key(key@),
            },
    {
        let mut i: usize = 0;
        while i < self.entries.len()
            invariant
                i <= self.entries@.len(),
                forall|j: int| 0 <= j < i ==> self.entries()[j].0 != key@,
            decreases self.entries@.len() - i,
        {
            if self.entries[i].0 == *key {
                return Some(i);
            }
            i += 1;
        }
        proof {
            lemma_pairs_dom(self.entries());
        }
        None
    }

    /// Whether `key` is a key of the map.
    pub fn contains_key(&self, key: &String) -> (b: bool)
        ensures
            b == self@.contains_key(key@),
    {
        proof {
            use_type_invariant(self);
        }
        match self.position(key) {
            Some(i) => {
                proof {
                    lemma_pairs_lookup(self.entries(), i as int);
                }
                true
            },
            None => false,
        }
    }

    /// The value at `key`, if it is a key of the map.
    pub fn get(&self, key: &String) -> (r: Option<&V>)
        ensures
            match r {
                Some(v) => self@.contains_key(key@) && *v == self@[key@],
                None => !self@.contains_key(key@),
            },
    {
        proof {
            use_type_invariant(self);
        }
        match self.position(key) {
            Some(i) => {
                proof {
                    lemma_pairs_lookup(self.entries(), i as int);
                }
                Some(&self.entries[i].1)
            },
            None => None,
        }
    }

    /// Takes `key` out of the map and returns the value that it had.
    pub fn remove(&mut self, key: &String) -> (r: Option<V>)
        ensures
            final(self)@ == old(self)@.remove(key@),
            match r {
                Some(v) => old(self)@.contains_key(key@) && v == old(self)@[key@],
                None => !old(self)@.contains_key(key@),
            },
    {
        proof {
            use_type_invariant(&*self);
        }
        match self.position(key) {
            Some(i) => {
                proof {
                    lemma_pairs_lookup(self.entries(), i as int);
                    lemma_pairs_remove(self.entries(), i as int);
                }
                let ghost before = self.entries();
                let mut entries: Vec<(String, V)> = Vec::new();
                std::mem::swap(&mut self.entries, &mut entries);
                let e = entries.remove(i);
                proof {
                    let after = pairs_view(entries@);
                    assert(after =~= before.remove(i as int));
                }
                self.entries = entries;
                Some(e.1)
            },
            None => {
                assert(self@ =~= self@.remove(key@));
                None
            },
        }
    }

    /// Sets the value at `key`, and returns the value that it had before.
    pub fn insert(&mut self, key: String, value: V) -> (r: Option<V>)
        ensures
            final(self)@ == old(self)@.insert(key@, value),
            match r {
                Some(v) => old(self)@.contains_key(key@) && v == old(self)@[key@],
                None => !old(self)@.contains_key(key@),
            },
    {
        let r = self.remove(&key);
        proof {
            use_type_invariant(&*self);
            lemma_pairs_dom(self.entries());
        }
        let ghost before = self.entries();
        let mut entries: Vec<(String, V)> = Vec::new();
        std::mem::swap(&mut self.entries, &mut entries);
        entries.push((key, value));
        proof {
            let after = pairs_view(entries@);
            assert(after =~= before.push((key@, value)));
            assert(after.drop_last() =~= before);
            assert forall|i: int, j: int| 0 <= i < j < after.len() implies after[i].0 != after[j].0 by {
                if j == after.len() - 1 {
                    assert(before[i].0 == after[i].0);
                    assert(pairs_to_map(before).contains_key(before[i].0));
                }
            }
        }
        self.entries = entries;
        assert(self@ =~= old(self)@.insert(key@, value));
        r
    }
}

/// A finite set of strings.
#[derive(Debug)]
pub struct StringSet {
    items: StringMap<()>,
}

impl Clone for StringSet {
    /// A set with the same elements in the same order.
    fn clone(&self) -> (s: Self)
        ensures
            s.elements() == self.elements(),
    {
        let s = StringSet { items: self.items.clone() };
        assert(s.elements() =~= self.elements());
        s
    }
}

impl View for StringSet {
    type V = Set<Seq<char>>;

    open spec fn view(&self) -> Set<Seq<char>> {
        self.elements().to_set()
    }
}

impl StringSet {
    /// The elements in the order in which `get` numbers them.
    pub closed spec fn elements(&self) -> Seq<Seq<char>> {
        self.items.entries().map_values(|e: (Seq<char>, ())| e.0)
    }

    proof fn lemma_view(&self)
        ensures
            self@ == self.items@.dom(),
    {
        lemma_pairs_dom(self.items.entries());
        assert forall|k: Seq<char>| self@.contains(k) <==> self.items@.dom().contains(k) by {
            if self@.contains(k) {
                let i = choose|i: int| 0 <= i < self.elements().len() && self.elements()[i] == k;
                assert(self.items.entries()[i].0 == k);
            }
            if self.items@.dom().contains(k) {
                let i = choose|i: int|
                    0 <= i < self.items.entries().len() && #[trigger] self.items.entries()[i].0 == k;
                assert(self.elements()[i] == k);
            }
        }
        assert(self@ =~= self.items@.dom());
    }

    /// States what always holds of a set: no element is listed twice.
    pub fn distinct(&self)
        ensures
            self.elements().no_duplicates(),
            self@.finite(),
            self@.len() == self.elements().len(),
    {
        self.items.distinct();
        proof {
            self.lemma_view();
            assert forall|i: int, j: int|
                0 <= i < self.elements().len() && 0 <= j < self.elements().len() && i
                    != j implies self.elements()[i] != self.elements()[j] by {
                if i < j {
                    assert(self.items.entries()[i].0 != self.items.entries()[j].0);
                } else {
                    assert(self.items.entries()[j].0 != self.items.entries()[i].0);
                }
            }
        }
    }

    /// The empty set.
    pub fn new() -> (s: Self)
        ensures
            s@ == Set::<Seq<char>>::empty(),
            s.elements().len() == 0,
    {
        let s = StringSet { items: StringMap::new() };
        proof {
            s.lemma_view();
        }
        s
    }

    /// The number of elements.
    pub fn len(&self) -> (n: usize)
        ensures
            n == self.elements().len(),
            n == self@.len(),
    {
        proof {
            self.lemma_view();
        }
        self.items.len()
    }

    /// Element `i`.
    pub fn get(&self, i: usize) -> (s: &String)
        requires
            i < self.elements().len(),
        ensures
            s@ == self.elements()[i as int],
            self@.contains(s@),
    {
        self.items.key_at(i)
    }

    /// Whether `s` is an element.
    pub fn contains(&self, s: &String) -> (b: bool)
        ensures
            b == self@.contains(s@),
    {
        proof {
            self.lemma_view();
        }
        self.items.contains_key(s)
    }

    /// Adds `s`. Returns whether it was new.
    pub fn insert(&mut self, s: String) -> (fresh: bool)
        ensures
            final(self)@ == old(self)@.insert(s@),
            fresh == !old(self)@.contains(s@),
    {
        proof {
            self.lemma_view();
        }
        let fresh = self.items.insert(s, ()).is_none();
        proof {
            self.lemma_view();
        }
        fresh
    }
}

} // verus!
