//! A map keyed by strings that keeps its entries in insertion order.
use crate::text::str_eq;
use vstd::prelude::*;

verus! {

/// The map that a list of entries with distinct keys stands for.
pub open spec fn to_map<V: DeepView>(s: Seq<(String, V)>) -> Map<Seq<char>, V::V>
    decreases s.len(),
{
    if s.len() == 0 {
        Map::empty()
    } else {
        to_map(s.drop_last()).insert(s.last().0@, s.last().1.deep_view())
    }
}

/// No two entries have the same key.
pub open spec fn distinct_keys<V>(s: Seq<(String, V)>) -> bool {
    forall|i: int, j: int| 0 <= i < j < s.len() ==> s[i].0@ != s[j].0@
}

pub proof fn lemma_to_map_dom<V: DeepView>(s: Seq<(String, V)>, k: Seq<char>)
    ensures
        to_map(s).dom().contains(k) <==> exists|i: int| 0 <= i < s.len() && s[i].0@ == k,
    decreases s.len(),
{
    if s.len() > 0 {
        lemma_to_map_dom(s.drop_last(), k);
        if to_map(s).dom().contains(k) {
            if s.last().0@ != k {
                let i = choose|i: int| 0 <= i < s.drop_last().len() && s.drop_last()[i].0@ == k;
                assert(s[i].0@ == k);
            } else {
                assert(s[s.len() - 1].0@ == k);
            }
        }
        if exists|i: int| 0 <= i < s.len() && s[i].0@ == k {
            let i = choose|i: int| 0 <= i < s.len() && s[i].0@ == k;
            if i < s.len() - 1 {
                assert(s.drop_last()[i].0@ == k);
            }
        }
    }
}

pub proof fn lemma_to_map_value<V: DeepView>(s: Seq<(String, V)>, i: int)
    requires
        distinct_keys(s),
        0 <= i < s.len(),
    ensures
        to_map(s).dom().contains(s[i].0@),
        to_map(s)[s[i].0@] == s[i].1.deep_view(),
    decreases s.len(),
{
    if i < s.len() - 1 {
        assert(s.drop_last()[i] == s[i]);
        lemma_to_map_value(s.drop_last(), i);
        assert(s[i].0@ != s[s.len() - 1].0@);
    }
}

pub proof fn lemma_to_map_finite<V: DeepView>(s: Seq<(String, V)>)
    requires
        distinct_keys(s),
    ensures
        to_map(s).dom().finite(),
        to_map(s).dom().len() == s.len(),
    decreases s.len(),
{
    if s.len() > 0 {
        lemma_to_map_finite(s.drop_last());
        lemma_to_map_dom(s.drop_last(), s.last().0@);
        if to_map(s.drop_last()).dom().contains(s.last().0@) {
            let i = choose|i: int|
                0 <= i < s.drop_last().len() && s.drop_last()[i].0@ == s.last().0@;
            assert(s[i].0@ == s[s.len() - 1].0@);
        }
    }
}

pub proof fn lemma_to_map_update<V: DeepView>(s: Seq<(String, V)>, i: int, v: V)
    requires
        distinct_keys(s),
        0 <= i < s.len(),
    ensures
        to_map(s.update(i, (s[i].0, v))) == to_map(s).insert(s[i].0@, v.deep_view()),
    decreases s.len(),
{
    let t = s.update(i, (s[i].0, v));
    if i == s.len() - 1 {
        assert(t.drop_last() == s.drop_last());
        lemma_to_map_dom(s.drop_last(), s[i].0@);
        assert(to_map(t) =~= to_map(s).insert(s[i].0@, v.deep_view()));
    } else {
        assert(t.drop_last() == s.drop_last().update(i, (s[i].0, v)));
        lemma_to_map_update(s.drop_last(), i, v);
        assert(s[i].0@ != s[s.len() - 1].0@);
        assert(to_map(t) =~= to_map(s).insert(s[i].0@, v.deep_view()));
    }
}

pub proof fn lemma_to_map_remove<V: DeepView>(s: Seq<(String, V)>, i: int)
    requires
        distinct_keys(s),
        0 <= i < s.len(),
    ensures
        to_map(s.remove(i)) == to_map(s).remove(s[i].0@),
    decreases s.len(),
{
    let k = s[i].0@;
    if i == s.len() - 1 {
        assert(s.remove(i) == s.drop_last());
        lemma_to_map_dom(s.drop_last(), k);
        assert(to_map(s.remove(i)) =~= to_map(s).remove(k));
    } else {
        assert(s.remove(i).drop_last() == s.drop_last().remove(i));
        assert(s.remove(i).last() == s.last());
        lemma_to_map_remove(s.drop_last(), i);
        assert(s[i].0@ != s[s.len() - 1].0@);
        assert(to_map(s.remove(i)) =~= to_map(s).remove(k));
    }
}
/// The entries that a list of keys and a list of values of the same length
/// make, pair by pair.
pub open spec fn zip_entries<V>(keys: Seq<String>, values: Seq<V>) -> Seq<(String, V)> {
    Seq::new(keys.len(), |i: int| (keys[i], values[i]))
}

/// No string occurs twice.
pub open spec fn distinct_strings(s: Seq<String>) -> bool {
    forall|i: int, j: int| 0 <= i < j < s.len() ==> s[i]@ != s[j]@
}

proof fn lemma_zip_distinct<V>(keys: Seq<String>, values: Seq<V>)
    requires
        distinct_strings(keys),
    ensures
        distinct_keys(zip_entries(keys, values)),
{
    let z = zip_entries(keys, values);
    assert forall|i: int, j: int| 0 <= i < j < z.len() implies z[i].0@ != z[j].0@ by {
        assert(z[i].0 == keys[i]);
        assert(z[j].0 == keys[j]);
    }
}

/// A map from strings to values, kept as a list of keys and a list of
/// values, in the order in which the keys were first inserted. No key
/// occurs twice.
#[derive(Debug)]
pub struct StrMap<V> {
    keys: Vec<String>,
    values: Vec<V>,
}

impl<V: Clone> Clone for StrMap<V> {
    /// A copy with the same keys in the same order, each value cloned.
    fn clone(&self) -> (r: Self)
        ensures
            r.entry_seq().len() == self.entry_seq().len(),
            forall|i: int|
                0 <= i < self.entry_seq().len() ==> #[trigger] r.entry_seq()[i].0@
                    == self.entry_seq()[i].0@,
            forall|i: int|
                0 <= i < self.entry_seq().len() ==> cloned::<V>(
                    self.entry_seq()[i].1,
                    #[trigger] r.entry_seq()[i].1,
                ),
    {
        proof {
            use_type_invariant(self);
        }
        let mut keys: Vec<String> = Vec::new();
        let mut values: Vec<V> = Vec::new();
        let mut i: usize = 0;
        while i < self.keys.len()
            invariant
                i <= self.keys@.len() == self.values@.len(),
                distinct_strings(self.keys@),
                keys@.len() == i,
                values@.len() == i,
                forall|j: int| 0 <= j < i ==> #[trigger] keys@[j]@ == self.keys@[j]@,
                forall|j: int| 0 <= j < i ==> cloned::<V>(self.values@[j], #[trigger] values@[j]),
            decreases self.keys.len() - i,
        {
            keys.push(self.keys[i].clone());
            values.push(self.values[i].clone());
            i = i + 1;
        }
        assert(distinct_strings(keys@)) by {
            assert forall|a: int, b: int| 0 <= a < b < keys@.len() implies keys@[a]@
                != keys@[b]@ by {
                assert(keys@[a]@ == self.keys@[a]@);
                assert(keys@[b]@ == self.keys@[b]@);
            }
        }
        StrMap { keys, values }
    }
}

impl<V: DeepView> View for StrMap<V> {
    type V = Map<Seq<char>, V::V>;

    closed spec fn view(&self) -> Map<Seq<char>, V::V> {
        to_map(self.entry_seq())
    }
}

impl<V: DeepView> DeepView for StrMap<V> {
    type V = Map<Seq<char>, V::V>;

    open spec fn deep_view(&self) -> Map<Seq<char>, V::V> {
        self@
    }
}

impl<V> StrMap<V> {
    #[verifier::type_invariant]
    closed spec fn keys_are_distinct(self) -> bool {
        &&& self.keys@.len() == self.values@.len()
        &&& distinct_strings(self.keys@)
    }

    /// The entries, in insertion order.
    pub closed spec fn entry_seq(self) -> Seq<(String, V)> {
        zip_entries(self.keys@, self.values@)
    }
}

impl<V: DeepView> StrMap<V> {
    /// An empty map.
    pub fn new() -> (m: Self)
        ensures
            m@ == Map::<Seq<char>, V::V>::empty(),
            m.entry_seq().len() == 0,
    {
        StrMap { keys: Vec::new(), values: Vec::new() }
    }

    fn index_of(&self, key: &str) -> (r: Option<usize>)
        ensures
            match r {
                Some(i) => i < self.keys@.len() && self.keys@[i as int]@ == key@,
                None => forall|i: int| 0 <= i < self.keys@.len() ==> self.keys@[i]@ != key@,
            },
    {
        let mut i: usize = 0;
        while i < self.keys.len()
            invariant
                i <= self.keys@.len(),
                forall|j: int| 0 <= j < i ==> self.keys@[j]@ != key@,
            decreases self.keys.len() - i,
        {
            if str_eq(self.keys[i].as_str(), key) {
                return Some(i);
            }
            i = i + 1;
        }
        None
    }

    /// The value that `key` maps to, if any.
    pub fn get(&self, key: &str) -> (r: Option<&V>)
        ensures
            match r {
                Some(v) => self@.contains_key(key@) && v.deep_view() == self@[key@],
                None => !self@.contains_key(key@),
            },
    {
        proof {
            use_type_invariant(self);
            lemma_zip_distinct(self.keys@, self.values@);
            lemma_to_map_dom(self.entry_seq(), key@);
        }
        match self.index_of(key) {
            Some(i) => {
                proof {
                    lemma_to_map_value(self.entry_seq(), i as int);
                }
                Some(&self.values[i])
            },
            None => None,
        }
    }

    /// The value that `key` maps to, to change in place.
    pub fn get_mut(&mut self, key: &str) -> (r: Option<&mut V>)
        ensures
            match r {
                Some(v) => {
                    &&& old(self)@.contains_key(key@)
                    &&& v.deep_view() == old(self)@[key@]
                    &&& final(self)@ == old(self)@.insert(key@, final(v).deep_view())
                },
                None => {
                    &&& !old(self)@.contains_key(key@)
                    &&& final(self)@ == old(self)@
                },
            },
    {
        proof {
            use_type_invariant(&*self);
            lemma_zip_distinct(self.keys@, self.values@);
            lemma_to_map_dom(self.entry_seq(), key@);
        }
        match self.index_of(key) {
            Some(i) => {
                let ghost keys = self.keys@;
                let ghost values = self.values@;
                proof {
                    lemma_to_map_value(self.entry_seq(), i as int);
                    assert forall|w: V| #[trigger]
                        to_map(zip_entries(keys, values.update(i as int, w))) == to_map(
                            zip_entries(keys, values),
                        ).insert(keys[i as int]@, w.deep_view()) by {
                        lemma_to_map_update(zip_entries(keys, values), i as int, w);
                        assert(zip_entries(keys, values.update(i as int, w)) =~= zip_entries(
                            keys,
                            values,
                        ).update(i as int, (keys[i as int], w)));
                    }
                }
                Some(&mut self.values[i])
            },
            None => None,
        }
    }

    /// Whether `key` has a value.
    pub fn contains_key(&self, key: &str) -> (r: bool)
        ensures
            r == self@.contains_key(key@),
    {
        proof {
            use_type_invariant(self);
            lemma_to_map_dom(self.entry_seq(), key@);
        }
        match self.index_of(key) {
            Some(i) => {
                assert(self.entry_seq()[i as int].0@ == key@);
                true
            },
            None => false,
        }
    }

    /// Maps `key` to `value`. A key already present keeps its place and
    /// takes the new value; a new key is appended.
    pub fn insert(&mut self, key: String, value: V)
        ensures
            final(self)@ == old(self)@.insert(key@, value.deep_view()),
            old(self)@.contains_key(key@) ==> exists|i: int|
                {
                    &&& 0 <= i < old(self).entry_seq().len()
                    &&& old(self).entry_seq()[i].0@ == key@
                    &&& final(self).entry_seq() == old(self).entry_seq().update(
                        i,
                        (old(self).entry_seq()[i].0, value),
                    )
                },
            !old(self)@.contains_key(key@) ==> final(self).entry_seq() == old(self).entry_seq().push(
                (key, value),
            ),
    {
        proof {
            use_type_invariant(&*self);
            lemma_zip_distinct(self.keys@, self.values@);
            lemma_to_map_dom(self.entry_seq(), key@);
        }
        let found = self.index_of(key.as_str());
        let mut taken = StrMap::new();
        std::mem::swap(&mut taken, self);
        let StrMap { mut keys, mut values } = taken;
        let ghost s = zip_entries(keys@, values@);
        let ghost ks0 = keys@;
        match found {
            Some(i) => {
                proof {
                    lemma_to_map_update(s, i as int, value);
                }
                values.set(i, value);
                assert(zip_entries(keys@, values@) =~= s.update(i as int, (s[i as int].0, value)));
                assert(s[i as int].0@ == key@);
            },
            None => {
                let ghost k = key;
                keys.push(key);
                values.push(value);
                assert(zip_entries(keys@, values@).drop_last() =~= s);
                assert(zip_entries(keys@, values@) =~= s.push((k, value)));
                assert forall|j: int| 0 <= j < s.len() implies s[j].0@ != k@ by {
                    assert(s[j].0 == ks0[j]);
                }
                assert(distinct_strings(keys@)) by {
                    assert forall|a: int, b: int| 0 <= a < b < keys@.len() implies keys@[a]@
                        != keys@[b]@ by {
                        if b == keys@.len() - 1 {
                            assert(keys@[b] == k);
                        }
                    }
                }
            },
        }
        *self = StrMap { keys, values };
    }

    /// Removes `key` and its value; the other entries keep their order.
    pub fn remove(&mut self, key: &str)
        ensures
            final(self)@ == old(self)@.remove(key@),
            old(self)@.contains_key(key@) ==> exists|i: int|
                {
                    &&& 0 <= i < old(self).entry_seq().len()
                    &&& old(self).entry_seq()[i].0@ == key@
                    &&& final(self).entry_seq() == old(self).entry_seq().remove(i)
                },
            !old(self)@.contains_key(key@) ==> final(self).entry_seq() == old(self).entry_seq(),
    {
        proof {
            use_type_invariant(&*self);
            lemma_zip_distinct(self.keys@, self.values@);
            lemma_to_map_dom(self.entry_seq(), key@);
        }
        let found = self.index_of(key);
        match found {
            Some(i) => {
                let mut taken = StrMap::new();
                std::mem::swap(&mut taken, self);
                let StrMap { mut keys, mut values } = taken;
                let ghost ks = keys@;
                let ghost s = zip_entries(keys@, values@);
                proof {
                    lemma_to_map_remove(s, i as int);
                }
                keys.remove(i);
                values.remove(i);
                assert(zip_entries(keys@, values@) =~= s.remove(i as int));
                assert(s[i as int].0@ == key@);
                assert(distinct_strings(keys@)) by {
                    assert forall|a: int, b: int| 0 <= a < b < keys@.len() implies keys@[a]@
                        != keys@[b]@ by {
                        let a1 = if a < i { a } else { a + 1 };
                        let b1 = if b < i { b } else { b + 1 };
                        assert(keys@[a] == ks[a1]);
                        assert(keys@[b] == ks[b1]);
                    }
                }
                *self = StrMap { keys, values };
            },
            None => {
                assert(old(self)@.remove(key@) =~= old(self)@);
            },
        }
    }

    /// The number of keys.
    pub fn len(&self) -> (r: usize)
        ensures
            r == self@.len(),
            r == self.entry_seq().len(),
    {
        proof {
            use_type_invariant(self);
            lemma_zip_distinct(self.keys@, self.values@);
            lemma_to_map_finite(self.entry_seq());
        }
        self.keys.len()
    }

    /// Whether the map holds no key.
    pub fn is_empty(&self) -> (r: bool)
        ensures
            r == (self@ == Map::<Seq<char>, V::V>::empty()),
    {
        proof {
            use_type_invariant(self);
            lemma_zip_distinct(self.keys@, self.values@);
            lemma_to_map_finite(self.entry_seq());
            if self.keys@.len() > 0 {
                lemma_to_map_value(self.entry_seq(), 0);
            }
        }
        self.keys.len() == 0
    }

    /// The keys, in the order in which they were first inserted.
    pub fn keys(&self) -> (r: &Vec<String>)
        ensures
            r@.len() == self.entry_seq().len(),
            forall|i: int| 0 <= i < r@.len() ==> #[trigger] r@[i] == self.entry_seq()[i].0,
            distinct_keys(self.entry_seq()),
            to_map(self.entry_seq()) == self@,
    {
        proof {
            use_type_invariant(self);
            lemma_zip_distinct(self.keys@, self.values@);
        }
        &self.keys
    }

    /// The values, in the order of their keys.
    pub fn values(&self) -> (r: &Vec<V>)
        ensures
            r@.len() == self.entry_seq().len(),
            forall|i: int| 0 <= i < r@.len() ==> #[trigger] r@[i] == self.entry_seq()[i].1,
    {
        proof {
            use_type_invariant(self);
        }
        &self.values
    }
}

impl StrMap<String> {
    /// Whether the two maps hold the same keys with the same values,
    /// whatever the order of their entries.
    pub fn same_map(&self, other: &StrMap<String>) -> (r: bool)
        ensures
            r == (self@ == other@),
    {
        let a = self.includes(other);
        let b = other.includes(self);
        proof {
            if a && b {
                assert forall|k: Seq<char>| #[trigger] self@.dom().contains(k) <==> other@.dom().contains(k) by {
                    if self@.dom().contains(k) {
                        assert(other@.dom().contains(k));
                    }
                    if other@.dom().contains(k) {
                        assert(self@.dom().contains(k));
                    }
                }
                assert(self@ =~= other@);
            }
        }
        a && b
    }

    /// Whether every key of `self` is in `other` with the same value.
    fn includes(&self, other: &StrMap<String>) -> (r: bool)
        ensures
            r == (forall|k: Seq<char>|
                #![trigger self@.dom().contains(k)]
                self@.dom().contains(k) ==> other@.dom().contains(k) && other@[k] == self@[k]),
    {
        proof {
            use_type_invariant(self);
            lemma_zip_distinct(self.keys@, self.values@);
        }
        let ghost s = self.entry_seq();
        let mut i: usize = 0;
        while i < self.keys.len()
            invariant
                i <= self.keys@.len() == self.values@.len(),
                s == zip_entries(self.keys@, self.values@),
                distinct_keys(s),
                forall|j: int|
                    0 <= j < i ==> other@.contains_key(#[trigger] s[j].0@) && other@[s[j].0@]
                        == s[j].1@,
            decreases self.keys.len() - i,
        {
            proof {
                lemma_to_map_value(s, i as int);
            }
            assert(s[i as int] == (self.keys@[i as int], self.values@[i as int]));
            match other.get(self.keys[i].as_str()) {
                Some(w) => {
                    if !(*w == self.values[i]) {
                        assert(self@.dom().contains(s[i as int].0@));
                        return false;
                    }
                },
                None => {
                    assert(self@.dom().contains(s[i as int].0@));
                    return false;
                },
            }
            i = i + 1;
        }
        proof {
            assert forall|k: Seq<char>| #[trigger] self@.dom().contains(k) implies other@.dom().contains(k)
                && other@[k] == self@[k] by {
                lemma_to_map_dom(s, k);
                let j = choose|j: int| 0 <= j < s.len() && s[j].0@ == k;
                lemma_to_map_value(s, j);
            }
        }
        true
    }
}

} // verus!
