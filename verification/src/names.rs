//! Maps from names to values.
use vstd::prelude::*;
use crate::text;

verus! {

/// A map from names, in the order in which they were first given a value.
pub struct NameMap<T> {
    pub entries: Vec<(String, T)>,
}

/// The first entry for `name`, if there is one.
pub open spec fn position<T>(entries: Seq<(String, T)>, name: Seq<char>) -> Option<int>
    decreases entries.len(),
{
    if entries.len() == 0 {
        None
    } else {
        match position(entries.drop_last(), name) {
            Some(i) => Some(i),
            None => if entries.last().0@ == name {
                Some(entries.len() - 1)
            } else {
                None
            },
        }
    }
}

proof fn lemma_position<T>(entries: Seq<(String, T)>, name: Seq<char>)
    ensures
        match position(entries, name) {
            Some(i) => 0 <= i < entries.len() && entries[i].0@ == name && forall|k: int|
                0 <= k < i ==> (#[trigger] entries[k]).0@ != name,
            None => forall|k: int| 0 <= k < entries.len() ==> (#[trigger] entries[k]).0@ != name,
        },
    decreases entries.len(),
{
    if entries.len() > 0 {
        let init = entries.drop_last();
        lemma_position(init, name);
        assert forall|k: int| 0 <= k < entries.len() - 1 implies #[trigger] entries[k] == init[k] by {}
        match position(init, name) {
            Some(i) => {
                assert(entries[i] == init[i]);
            },
            None => {
                assert forall|k: int| 0 <= k < entries.len() - 1 implies (#[trigger] entries[k]).0@
                    != name by {
                    assert(init[k].0@ != name);
                }
            },
        }
    }
}

proof fn lemma_position_is<T>(entries: Seq<(String, T)>, name: Seq<char>, i: int)
    requires
        0 <= i < entries.len(),
        entries[i].0@ == name,
        forall|k: int| 0 <= k < i ==> (#[trigger] entries[k]).0@ != name,
    ensures
        position(entries, name) == Some(i),
{
    lemma_position(entries, name);
}

impl<T: DeepView> View for NameMap<T> {
    type V = Map<Seq<char>, T::V>;

    open spec fn view(&self) -> Map<Seq<char>, T::V> {
        Map::new(
            |name: Seq<char>| position(self.entries@, name) is Some,
            |name: Seq<char>| self.entries@[position(self.entries@, name)->0].1.deep_view(),
        )
    }
}

impl<T: DeepView> NameMap<T> {
    pub fn new() -> (r: NameMap<T>)
        ensures
            r@ == Map::<Seq<char>, T::V>::empty(),
    {
        let r = NameMap { entries: Vec::new() };
        assert(r@ =~= Map::<Seq<char>, T::V>::empty());
        r
    }

    fn find(&self, name: &str) -> (r: Option<usize>)
        ensures
            match r {
                Some(i) => i < self.entries@.len() && position(self.entries@, name@) == Some(
                    i as int,
                ),
                None => position(self.entries@, name@) is None,
            },
    {
        let mut i: usize = 0;
        while i < self.entries.len()
            invariant
                i <= self.entries@.len(),
                forall|k: int| 0 <= k < i ==> (#[trigger] self.entries@[k]).0@ != name@,
            decreases self.entries@.len() - i,
        {
            if text::same_text(self.entries[i].0.as_str(), name) {
                proof {
                    lemma_position_is(self.entries@, name@, i as int);
                }
                return Some(i);
            }
            i += 1;
        }
        proof {
            lemma_position(self.entries@, name@);
        }
        None
    }

    /// The value of `name`.
    pub fn get(&self, name: &str) -> (r: Option<&T>)
        ensures
            match r {
                Some(v) => self@.contains_key(name@) && v.deep_view() == self@[name@],
                None => !self@.contains_key(name@),
            },
    {
        match self.find(name) {
            Some(i) => Some(&self.entries[i].1),
            None => None,
        }
    }

    /// Give `name` a value, in place of the one that it has.
    pub fn insert(&mut self, name: String, value: T)
        ensures
            final(self)@ == old(self)@.insert(name@, value.deep_view()),
    {
        let ghost before = self.entries@;
        match self.find(name.as_str()) {
            Some(i) => {
                self.entries[i] = (name, value);
                proof {
                    assert forall|n: Seq<char>| position(self.entries@, n) == position(before, n) by {
                        lemma_position(before, n);
                        lemma_position(before, name@);
                        lemma_position(self.entries@, n);
                        if let Some(k) = position(before, n) {
                            assert(self.entries@[k].0@ == n);
                            assert forall|j: int| 0 <= j < k implies (#[trigger] self.entries@[j]).0@
                                != n by {
                                assert(before[j].0@ != n);
                            }
                            lemma_position_is(self.entries@, n, k);
                        } else {
                            if let Some(k) = position(self.entries@, n) {
                                assert(before[k].0@ != n);
                            }
                        }
                    }
                    lemma_position(before, name@);
                    assert forall|n: Seq<char>| n != name@ && old(self)@.contains_key(n) implies self@[n]
                        == old(self)@[n] by {
                        lemma_position(before, n);
                    }
                    assert(self@ =~= old(self)@.insert(name@, value.deep_view()));
                }
            },
            None => {
                self.entries.push((name, value));
                proof {
                    let after = self.entries@;
                    assert(after.drop_last() =~= before);
                    assert forall|n: Seq<char>| n != name@ implies position(after, n) == position(
                        before,
                        n,
                    ) by {}
                    assert forall|n: Seq<char>| n != name@ && old(self)@.contains_key(n) implies self@[n]
                        == old(self)@[n] by {
                        lemma_position(before, n);
                    }
                    assert(position(after, name@) == Some(before.len() as int));
                    assert(self@ =~= old(self)@.insert(name@, value.deep_view()));
                }
            },
        }
    }
}

} // verus!
