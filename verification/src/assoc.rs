use vstd::prelude::*;

verus! {

/// A key that can be compared and copied by the map below.
pub trait KeyLike: Sized {
    type KeyView;

    spec fn key_view(&self) -> Self::KeyView;

    fn same_key(&self, other: &Self) -> (b: bool)
        ensures
            b == (self.key_view() == other.key_view()),
    ;

    fn copy_key(&self) -> (r: Self)
        ensures
            r.key_view() == self.key_view(),
    ;
}

impl KeyLike for String {
    type KeyView = Seq<char>;

    open spec fn key_view(&self) -> Seq<char> {
        self@
    }

    fn same_key(&self, other: &Self) -> (b: bool) {
        *self == *other
    }

    fn copy_key(&self) -> (r: Self) {
        self.clone()
    }
}

pub proof fn lemma_index_of_distinct<T>(s: Seq<T>, i: int)
    requires
        s.no_duplicates(),
        0 <= i < s.len(),
    ensures
        s.index_of(s[i]) == i,
{
    assert(s.contains(s[i]));
}

/// The elements of a pushed sequence.
pub proof fn lemma_push_to_set<T>(s: Seq<T>, x: T)
    ensures
        s.push(x).to_set() == s.to_set().insert(x),
{
    assert forall|y: T| s.push(x).to_set().contains(y) implies s.to_set().insert(x).contains(y) by {
        let i = choose|i: int| 0 <= i < s.push(x).len() && s.push(x)[i] == y;
        if i < s.len() {
            assert(s[i] == y);
        }
    }
    assert forall|y: T| s.to_set().insert(x).contains(y) implies s.push(x).to_set().contains(y) by {
        if y == x {
            assert(s.push(x)[s.len() as int] == y);
        } else {
            let i = choose|i: int| 0 <= i < s.len() && s[i] == y;
            assert(s.push(x)[i] == y);
        }
    }
    assert(s.push(x).to_set() =~= s.to_set().insert(x));
}

/// What a prefix one element longer contains.
pub proof fn lemma_take_one_more<T>(s: Seq<T>, i: int)
    requires
        0 <= i < s.len(),
    ensures
        forall|k: T| #[trigger] s.take(i + 1).contains(k) <==> (s.take(i).contains(k) || k == s[i]),
{
    assert(s.take(i + 1) =~= s.take(i).push(s[i]));
    lemma_push_to_set(s.take(i), s[i]);
    assert forall|k: T| #[trigger] s.take(i + 1).contains(k) <==> (s.take(i).contains(k) || k == s[i]) by {
        assert(s.take(i + 1).to_set().contains(k) == s.take(i + 1).contains(k));
        assert(s.take(i).to_set().contains(k) == s.take(i).contains(k));
    }
}

/// Filtering a pushed sequence.
pub proof fn lemma_filter_push<T>(s: Seq<T>, x: T, p: spec_fn(T) -> bool)
    ensures
        s.push(x).filter(p) == if p(x) { s.filter(p).push(x) } else { s.filter(p) },
{
    reveal(Seq::filter);
    assert(s.push(x).drop_last() =~= s);
}

/// A map that keeps its keys in insertion order.  Keys are compared by their
/// views, and no two entries share a key.
pub struct AssocMap<K: KeyLike, V> {
    entries: Vec<(K, V)>,
}

impl<K: KeyLike, V> AssocMap<K, V> {
    /// The entries, in order.
    pub closed spec fn entries(&self) -> Seq<(K, V)> {
        self.entries@
    }

    /// The keys' views, in order.
    pub open spec fn key_seq(&self) -> Seq<K::KeyView> {
        self.entries().map_values(|e: (K, V)| e.0.key_view())
    }

    /// The values, in key order.
    pub open spec fn value_seq(&self) -> Seq<V> {
        self.entries().map_values(|e: (K, V)| e.1)
    }

    /// Index of the entry with the given key view.
    pub open spec fn index_of_key(&self, k: K::KeyView) -> int {
        self.key_seq().index_of(k)
    }

    pub open spec fn wf(&self) -> bool {
        self.key_seq().no_duplicates()
    }

    #[verifier::type_invariant]
    spec fn inv(&self) -> bool {
        self.wf()
    }

    /// The map from key views to values.
    pub open spec fn as_map(&self) -> Map<K::KeyView, V> {
        Map::new(
            |k: K::KeyView| self.key_seq().contains(k),
            |k: K::KeyView| self.value_seq()[self.index_of_key(k)],
        )
    }

    pub proof fn lemma_view_at(&self, i: int)
        requires
            self.wf(),
            0 <= i < self.entries().len(),
        ensures
            self.as_map().contains_key(self.key_seq()[i]),
            self.as_map()[self.key_seq()[i]] == self.entries()[i].1,
            self.index_of_key(self.key_seq()[i]) == i,
    {
        lemma_index_of_distinct(self.key_seq(), i);
    }

    /// A map holds finitely many keys.
    pub proof fn lemma_dom_finite(&self)
        ensures
            self.as_map().dom().finite(),
    {
        assert(self.as_map().dom() =~= self.key_seq().to_set());
        vstd::seq_lib::seq_to_set_is_finite(self.key_seq());
    }

    /// An empty map.
    pub fn new() -> (m: Self)
        ensures
            m.entries().len() == 0,
            m.as_map() == Map::<K::KeyView, V>::empty(),
    {
        let m = AssocMap { entries: Vec::new() };
        assert(m.as_map() =~= Map::<K::KeyView, V>::empty());
        m
    }

    /// Number of entries.
    pub fn len(&self) -> (n: usize)
        ensures
            n == self.entries().len(),
            n == self.as_map().len(),
            self.wf(),
    {
        proof {
            use_type_invariant(self);
            self.key_seq().unique_seq_to_set();
            assert(self.as_map().dom() =~= self.key_seq().to_set());
        }
        self.entries.len()
    }

    /// Whether the map has no entries.
    pub fn is_empty(&self) -> (b: bool)
        ensures
            b == (self.entries().len() == 0),
            b == (self.as_map() == Map::<K::KeyView, V>::empty()),
    {
        proof {
            if self.entries().len() > 0 {
                assert(self.as_map().contains_key(self.key_seq()[0]));
            } else {
                assert(self.as_map() =~= Map::<K::KeyView, V>::empty());
            }
        }
        self.entries.len() == 0
    }

    /// Position of the entry with the given key, if any.
    pub fn find(&self, k: &K) -> (r: Option<usize>)
        ensures
            self.wf(),
            match r {
                Some(i) => i < self.entries().len() && self.key_seq()[i as int] == k.key_view()
                    && self.index_of_key(k.key_view()) == i,
                None => !self.as_map().contains_key(k.key_view()),
            },
    {
        proof {
            use_type_invariant(self);
        }
        let mut i: usize = 0;
        while i < self.entries.len()
            invariant
                self.wf(),
                i <= self.entries().len(),
                forall|j: int| 0 <= j < i ==> self.key_seq()[j] != k.key_view(),
            decreases self.entries().len() - i,
        {
            if self.entries[i].0.same_key(k) {
                proof {
                    lemma_index_of_distinct(self.key_seq(), i as int);
                }
                return Some(i);
            }
            i = i + 1;
        }
        None
    }

    /// Whether the key is present.
    pub fn contains_key(&self, k: &K) -> (b: bool)
        ensures
            b == self.as_map().contains_key(k.key_view()),
    {
        match self.find(k) {
            Some(i) => {
                proof {
                    self.lemma_view_at(i as int);
                }
                true
            },
            None => false,
        }
    }

    /// The value stored under the key, if any.
    pub fn get(&self, k: &K) -> (r: Option<&V>)
        ensures
            match r {
                Some(v) => self.as_map().contains_key(k.key_view()) && *v == self.as_map()[k.key_view()],
                None => !self.as_map().contains_key(k.key_view()),
            },
    {
        match self.find(k) {
            Some(i) => {
                proof {
                    self.lemma_view_at(i as int);
                }
                Some(&self.entries[i].1)
            },
            None => None,
        }
    }

    /// The key stored at a position.
    pub fn key_at(&self, i: usize) -> (r: &K)
        requires
            i < self.entries().len(),
        ensures
            *r == self.entries()[i as int].0,
    {
        &self.entries[i].0
    }

    /// The value stored at a position.
    pub fn value_at(&self, i: usize) -> (r: &V)
        requires
            i < self.entries().len(),
        ensures
            *r == self.entries()[i as int].1,
    {
        &self.entries[i].1
    }

    /// Stores a value under a key.  An existing key keeps its position; a new key
    /// goes last.  Returns the value that was replaced, if any.
    pub fn insert(&mut self, k: K, v: V) -> (old_v: Option<V>)
        ensures
            final(self).as_map() == old(self).as_map().insert(k.key_view(), v),
            match old_v {
                Some(o) => old(self).as_map().contains_key(k.key_view()) && o == old(self).as_map()[k.key_view()]
                    && final(self).key_seq() == old(self).key_seq(),
                None => !old(self).as_map().contains_key(k.key_view())
                    && final(self).key_seq() == old(self).key_seq().push(k.key_view()),
            },
    {
        proof {
            use_type_invariant(&*self);
        }
        match self.find(&k) {
            Some(i) => {
                let ghost old_entries = self.entries@;
                proof {
                    self.lemma_view_at(i as int);
                }
                let mut es = Vec::new();
                std::mem::swap(&mut es, &mut self.entries);
                let (_, ov) = es.remove(i);
                es.insert(i, (k, v));
                proof {
                    assert(es@.map_values(|e: (K, V)| e.0.key_view()) =~= old(self).key_seq());
                }
                self.entries = es;
                proof {
                    assert(self.key_seq() =~= old(self).key_seq());
                    assert forall|kk: K::KeyView| #[trigger] self.as_map().contains_key(kk) implies
                        self.as_map()[kk] == old(self).as_map().insert(k.key_view(), v)[kk] by {
                        let j = self.key_seq().index_of(kk);
                        lemma_index_of_distinct(self.key_seq(), j);
                        lemma_index_of_distinct(old(self).key_seq(), j);
                    }
                    assert(self.as_map() =~= old(self).as_map().insert(k.key_view(), v));
                }
                Some(ov)
            },
            None => {
                let ghost kv = k.key_view();
                let mut es = Vec::new();
                std::mem::swap(&mut es, &mut self.entries);
                es.push((k, v));
                proof {
                    assert(es@.map_values(|e: (K, V)| e.0.key_view()) =~= old(self).key_seq().push(kv));
                }
                self.entries = es;
                proof {
                    assert(self.key_seq() =~= old(self).key_seq().push(kv));
                    assert forall|kk: K::KeyView| #[trigger] self.as_map().contains_key(kk) implies
                        self.as_map()[kk] == old(self).as_map().insert(kv, v)[kk] by {
                        let j = self.key_seq().index_of(kk);
                        lemma_index_of_distinct(self.key_seq(), j);
                        if j < old(self).entries().len() {
                            lemma_index_of_distinct(old(self).key_seq(), j);
                        }
                    }
                    assert forall|kk: K::KeyView| old(self).as_map().insert(kv, v).contains_key(kk)
                        implies #[trigger] self.as_map().contains_key(kk) by {
                        if kk == kv {
                            assert(self.key_seq()[old(self).entries().len() as int] == kv);
                        } else {
                            let j = old(self).key_seq().index_of(kk);
                            assert(self.key_seq()[j] == kk);
                        }
                    }
                    assert(self.as_map() =~= old(self).as_map().insert(kv, v));
                }
                None
            },
        }
    }

    /// Removes the entry with the given key, keeping the order of the others.
    pub fn remove(&mut self, k: &K) -> (old_v: Option<V>)
        ensures
            final(self).as_map() == old(self).as_map().remove(k.key_view()),
            match old_v {
                Some(o) => old(self).as_map().contains_key(k.key_view()) && o == old(self).as_map()[k.key_view()]
                    && final(self).key_seq() == old(self).key_seq().remove(old(self).index_of_key(k.key_view())),
                None => !old(self).as_map().contains_key(k.key_view())
                    && final(self).key_seq() == old(self).key_seq(),
            },
    {
        proof {
            use_type_invariant(&*self);
        }
        match self.find(k) {
            Some(i) => {
                proof {
                    self.lemma_view_at(i as int);
                }
                let mut es = Vec::new();
                std::mem::swap(&mut es, &mut self.entries);
                let (_, ov) = es.remove(i);
                proof {
                    assert(es@.map_values(|e: (K, V)| e.0.key_view()) =~= old(self).key_seq().remove(i as int));
                }
                self.entries = es;
                proof {
                    assert(self.key_seq() =~= old(self).key_seq().remove(i as int));
                    assert forall|kk: K::KeyView| #[trigger] self.as_map().contains_key(kk) implies
                        self.as_map()[kk] == old(self).as_map().remove(k.key_view())[kk] by {
                        let j = self.key_seq().index_of(kk);
                        lemma_index_of_distinct(self.key_seq(), j);
                        if j < i {
                            lemma_index_of_distinct(old(self).key_seq(), j);
                        } else {
                            lemma_index_of_distinct(old(self).key_seq(), j + 1);
                        }
                    }
                    assert forall|kk: K::KeyView| old(self).as_map().remove(k.key_view()).contains_key(kk)
                        implies #[trigger] self.as_map().contains_key(kk) by {
                        let j = old(self).key_seq().index_of(kk);
                        if j < i {
                            assert(self.key_seq()[j] == kk);
                        } else {
                            assert(self.key_seq()[j - 1] == kk);
                        }
                    }
                    assert(self.as_map() =~= old(self).as_map().remove(k.key_view()));
                }
                Some(ov)
            },
            None => {
                assert(self.as_map() =~= old(self).as_map().remove(k.key_view()));
                None
            },
        }
    }

    /// Replaces the value at a position, keeping the key.
    pub fn set_value_at(&mut self, i: usize, v: V) -> (old_v: V)
        requires
            i < old(self).entries().len(),
        ensures
            final(self).key_seq() == old(self).key_seq(),
            final(self).entries().len() == old(self).entries().len(),
            final(self).entries()[i as int].1 == v,
            old_v == old(self).entries()[i as int].1,
            forall|j: int| 0 <= j < old(self).entries().len() && j != i ==> final(self).entries()[j] == old(self).entries()[j],
            final(self).as_map() == old(self).as_map().insert(old(self).key_seq()[i as int], v),
    {
        proof {
            use_type_invariant(&*self);
        }
        let mut es = Vec::new();
        std::mem::swap(&mut es, &mut self.entries);
        let (kk, ov) = es.remove(i);
        es.insert(i, (kk, v));
        proof {
            assert(es@.map_values(|e: (K, V)| e.0.key_view()) =~= old(self).key_seq());
        }
        self.entries = es;
        proof {
            assert(self.key_seq() =~= old(self).key_seq());
            self.lemma_view_at(i as int);
            old(self).lemma_view_at(i as int);
            let key = old(self).key_seq()[i as int];
            assert forall|q: K::KeyView| #[trigger] self.as_map().contains_key(q) implies
                self.as_map()[q] == old(self).as_map().insert(key, v)[q] by {
                let j = self.key_seq().index_of(q);
                lemma_index_of_distinct(self.key_seq(), j);
                lemma_index_of_distinct(old(self).key_seq(), j);
            }
            assert(self.as_map() =~= old(self).as_map().insert(key, v));
        }
        ov
    }

    /// The entries, in order, taken out of the map.
    pub fn into_entries(self) -> (r: Vec<(K, V)>)
        ensures
            r@ == self.entries(),
            self.wf(),
    {
        proof {
            use_type_invariant(&self);
        }
        self.entries
    }

    /// Removes every entry.
    pub fn clear(&mut self)
        ensures
            final(self).entries().len() == 0,
            final(self).as_map() == Map::<K::KeyView, V>::empty(),
    {
        self.entries = Vec::new();
        assert(self.as_map() =~= Map::<K::KeyView, V>::empty());
    }
}

} // verus!
