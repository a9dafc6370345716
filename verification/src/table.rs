//! The table the manager keeps its state in: keys that are text, values of
//! any kind, in a vector that is searched from the front. Its model is an
//! association list.

use crate::assoc;
use crate::assoc::Key;
use crate::text::same_text;
use vstd::prelude::*;

verus! {

struct Entry<T> {
    key: String,
    value: T,
}

/// Values by textual key, in the order in which the keys first came.
pub struct Table<T> {
    entries: Vec<Entry<T>>,
}

impl<T: DeepView> Table<T> {
    /// The table as an association list of key and value.
    pub closed spec fn model(&self) -> Seq<(Key, T::V)> {
        Seq::new(
            self.entries@.len(),
            |i: int| (self.entries@[i].key@, self.entries@[i].value.deep_view()),
        )
    }

    /// An empty table.
    pub fn new() -> (t: Self)
        ensures
            t.model() == Seq::<(Key, T::V)>::empty(),
    {
        let t = Table { entries: Vec::new() };
        assert(t.model() =~= Seq::<(Key, T::V)>::empty());
        t
    }

    /// The number of entries.
    pub fn len(&self) -> (n: usize)
        ensures
            n == self.model().len(),
    {
        self.entries.len()
    }

    /// Where the entry for `key` stands, if there is one.
    pub fn find(&self, key: &str) -> (r: Option<usize>)
        ensures
            match r {
                Some(i) => i < self.model().len() && i == assoc::slot(self.model(), key@),
                None => !assoc::has_key(self.model(), key@),
            },
    {
        let mut i: usize = 0;
        while i < self.entries.len()
            invariant
                i <= self.entries.len(),
                forall|j: int| 0 <= j < i ==> (#[trigger] self.model()[j]).0 != key@,
            decreases self.entries.len() - i,
        {
            if same_text(self.entries[i].key.as_str(), key) {
                proof {
                    assoc::lemma_slot_is(self.model(), key@, i as int);
                }
                return Some(i);
            }
            i = i + 1;
        }
        proof {
            assoc::lemma_slot_is(self.model(), key@, i as int);
        }
        None
    }

    /// The key of the entry at `i`.
    pub fn key(&self, i: usize) -> (k: &String)
        requires
            i < self.model().len(),
        ensures
            k@ == self.model()[i as int].0,
    {
        &self.entries[i].key
    }

    /// The value of the entry at `i`.
    pub fn value(&self, i: usize) -> (v: &T)
        requires
            i < self.model().len(),
        ensures
            v.deep_view() == self.model()[i as int].1,
    {
        &self.entries[i].value
    }

    /// Puts `value` in the place of the value at `i` and hands the old one
    /// out.
    pub fn swap(&mut self, i: usize, value: T) -> (was: T)
        requires
            i < old(self).model().len(),
        ensures
            was.deep_view() == old(self).model()[i as int].1,
            final(self).model() == old(self).model().update(
                i as int,
                (old(self).model()[i as int].0, value.deep_view()),
            ),
    {
        let key = self.entries[i].key.clone();
        self.entries.push(Entry { key, value });
        let was = self.entries.swap_remove(i);
        assert(self.model() =~= old(self).model().update(
            i as int,
            (old(self).model()[i as int].0, value.deep_view()),
        ));
        was.value
    }

    /// Puts `value` under `key` and hands out the value that was there.
    pub fn put(&mut self, key: String, value: T) -> (was: Option<T>)
        ensures
            final(self).model() == assoc::put(old(self).model(), key@, value.deep_view()),
            match was {
                Some(v) => assoc::get(old(self).model(), key@) == Some(v.deep_view()),
                None => !assoc::has_key(old(self).model(), key@),
            },
    {
        match self.find(key.as_str()) {
            Some(i) => {
                self.entries.push(Entry { key, value });
                let was = self.entries.swap_remove(i);
                assert(self.model() =~= assoc::put(
                    old(self).model(),
                    key@,
                    value.deep_view(),
                ));
                Some(was.value)
            },
            None => {
                self.entries.push(Entry { key, value });
                assert(self.model() =~= assoc::put(
                    old(self).model(),
                    key@,
                    value.deep_view(),
                ));
                None
            },
        }
    }

    /// Takes the entry for `key` out and hands out its value.
    pub fn del(&mut self, key: &str) -> (was: Option<T>)
        ensures
            final(self).model() == assoc::del(old(self).model(), key@),
            match was {
                Some(v) => assoc::get(old(self).model(), key@) == Some(v.deep_view()),
                None => !assoc::has_key(old(self).model(), key@),
            },
    {
        match self.find(key) {
            Some(i) => {
                let was = self.entries.remove(i);
                assert(self.model() =~= assoc::del(old(self).model(), key@));
                Some(was.value)
            },
            None => None,
        }
    }
}

} // verus!
