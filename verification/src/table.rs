//! A small map from texts to values, kept as a list of pairs.

use vstd::prelude::*;

use crate::text::same_text;

verus! {

/// A map from texts to values of type `V`.
#[derive(Debug)]
pub struct TextMap<V> {
    entries: Vec<(String, V)>,
}

/// The map that a list of pairs stands for: later pairs win.
pub open spec fn pairs_map<V>(pairs: Seq<(String, V)>) -> Map<Seq<char>, V>
    decreases pairs.len(),
{
    if pairs.len() == 0 {
        Map::empty()
    } else {
        pairs_map(pairs.drop_last()).insert(pairs.last().0@, pairs.last().1)
    }
}

impl<V> View for TextMap<V> {
    type V = Map<Seq<char>, V>;

    closed spec fn view(&self) -> Map<Seq<char>, V> {
        pairs_map(self.entries@)
    }
}

/// Writing over the last pair with a key changes the value of that key alone.
proof fn lemma_overwrite<V>(pairs: Seq<(String, V)>, at: int, pair: (String, V))
    requires
        0 <= at < pairs.len(),
        pairs[at].0@ == pair.0@,
        forall|j: int| at < j < pairs.len() ==> (#[trigger] pairs[j]).0@ != pair.0@,
    ensures
        pairs_map(pairs.update(at, pair)) == pairs_map(pairs).insert(pair.0@, pair.1),
    decreases pairs.len(),
{
    let changed = pairs.update(at, pair);
    if at == pairs.len() - 1 {
        assert(changed.drop_last() == pairs.drop_last());
        assert(pairs_map(changed) =~= pairs_map(pairs).insert(pair.0@, pair.1));
    } else {
        assert(changed.drop_last() == pairs.drop_last().update(at, pair));
        lemma_overwrite(pairs.drop_last(), at, pair);
        assert(pairs.last().0@ != pair.0@);
        assert(pairs_map(changed) =~= pairs_map(pairs).insert(pair.0@, pair.1));
    }
}

impl<V> TextMap<V> {
    /// A map without entries.
    pub fn new() -> (r: Self)
        ensures
            r@ == Map::<Seq<char>, V>::empty(),
    {
        TextMap { entries: Vec::new() }
    }

    /// The pairs that the map stands for.
    pub fn entries(&self) -> (r: &Vec<(String, V)>)
        ensures
            pairs_map(r@) == self@,
    {
        &self.entries
    }

    /// Whether the map has no entry.
    pub fn is_empty(&self) -> (r: bool)
        ensures
            r == (self@ =~= Map::<Seq<char>, V>::empty()),
    {
        assert(self.entries@.len() > 0 ==> self@.contains_key(self.entries@.last().0@));
        self.entries.len() == 0
    }

    /// The position of the entry that gives `key` its value.
    fn find(&self, key: &str) -> (r: Option<usize>)
        ensures
            match r {
                Some(at) => {
                    &&& at < self.entries@.len()
                    &&& self.entries@[at as int].0@ == key@
                    &&& forall|j: int|
                        at < j < self.entries@.len() ==> (#[trigger] self.entries@[j]).0@ != key@
                    &&& self@.contains_key(key@)
                    &&& self@[key@] == self.entries@[at as int].1
                },
                None => !self@.contains_key(key@),
            },
    {
        let mut i: usize = self.entries.len();
        assert(self.entries@.take(i as int) == self.entries@);
        while i > 0
            invariant
                i <= self.entries@.len(),
                forall|j: int|
                    i <= j < self.entries@.len() ==> (#[trigger] self.entries@[j]).0@ != key@,
                self@.contains_key(key@) == pairs_map(self.entries@.take(i as int)).contains_key(
                    key@,
                ),
                self@.contains_key(key@) ==> self@[key@] == pairs_map(
                    self.entries@.take(i as int),
                )[key@],
            decreases i,
        {
            assert(self.entries@.take(i as int).drop_last() == self.entries@.take(i - 1));
            assert(self.entries@.take(i as int).last() == self.entries@[i - 1]);
            i = i - 1;
            if same_text(self.entries[i].0.as_str(), key) {
                return Some(i);
            }
        }
        None
    }

    /// The value of `key`.
    pub fn get(&self, key: &str) -> (r: Option<&V>)
        ensures
            match r {
                Some(v) => self@.contains_key(key@) && *v == self@[key@],
                None => !self@.contains_key(key@),
            },
    {
        match self.find(key) {
            Some(at) => Some(&self.entries[at].1),
            None => None,
        }
    }

    /// Whether `key` has a value.
    pub fn contains_key(&self, key: &str) -> (r: bool)
        ensures
            r == self@.contains_key(key@),
    {
        self.find(key).is_some()
    }

    /// Gives `key` the value `value`.
    pub fn insert(&mut self, key: String, value: V)
        ensures
            final(self)@ == old(self)@.insert(key@, value),
    {
        match self.find(key.as_str()) {
            Some(at) => {
                proof {
                    lemma_overwrite(self.entries@, at as int, (key, value));
                }
                self.entries.set(at, (key, value));
            },
            None => {
                assert(self.entries@.push((key, value)).drop_last() == self.entries@);
                self.entries.push((key, value));
            },
        }
    }
}

impl TextMap<u32> {
    /// A map with the same entries.
    pub fn copy(&self) -> (r: Self)
        ensures
            r@ == self@,
    {
        let mut entries: Vec<(String, u32)> = Vec::new();
        for i in 0..self.entries.len()
            invariant
                entries@ == self.entries@.take(i as int),
        {
            let pair = (self.entries[i].0.clone(), self.entries[i].1);
            assert(self.entries@.take(i + 1) == self.entries@.take(i as int).push(
                self.entries@[i as int],
            ));
            entries.push(pair);
        }
        assert(self.entries@.take(self.entries@.len() as int) == self.entries@);
        TextMap { entries }
    }
}

impl TextMap<i64> {
    /// A map with the same entries.
    pub fn copy(&self) -> (r: Self)
        ensures
            r@ == self@,
    {
        let mut entries: Vec<(String, i64)> = Vec::new();
        for i in 0..self.entries.len()
            invariant
                entries@ == self.entries@.take(i as int),
        {
            let pair = (self.entries[i].0.clone(), self.entries[i].1);
            assert(self.entries@.take(i + 1) == self.entries@.take(i as int).push(
                self.entries@[i as int],
            ));
            entries.push(pair);
        }
        assert(self.entries@.take(self.entries@.len() as int) == self.entries@);
        TextMap { entries }
    }
}

impl TextMap<String> {
    /// A map with the same entries.
    pub fn copy(&self) -> (r: Self)
        ensures
            r@ == self@,
    {
        let mut entries: Vec<(String, String)> = Vec::new();
        for i in 0..self.entries.len()
            invariant
                entries@ == self.entries@.take(i as int),
        {
            let pair = (self.entries[i].0.clone(), self.entries[i].1.clone());
            assert(self.entries@.take(i + 1) == self.entries@.take(i as int).push(
                self.entries@[i as int],
            ));
            entries.push(pair);
        }
        assert(self.entries@.take(self.entries@.len() as int) == self.entries@);
        TextMap { entries }
    }
}

} // verus!
