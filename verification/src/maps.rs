//! A map from texts, kept in the order of text.

use vstd::prelude::*;

use crate::order::{text_before, text_before_irreflexive};
use crate::sets::{increasing, lemma_inserted_in_place, place};
use crate::text::views;

verus! {

/// A map from texts to values.
pub struct TextMap<T> {
    keys: Vec<String>,
    values: Vec<T>,
}

/// A place where `key` stands.
pub open spec fn place_of(keys: Seq<Seq<char>>, key: Seq<char>) -> int {
    choose|i: int| 0 <= i < keys.len() && keys[i] == key
}

/// The map that takes each key to the value at the same place.
pub open spec fn listed_map<T>(keys: Seq<Seq<char>>, values: Seq<T>) -> Map<Seq<char>, T> {
    Map::new(|k: Seq<char>| keys.contains(k), |k: Seq<char>| values[place_of(keys, k)])
}

impl<T> View for TextMap<T> {
    type V = Map<Seq<char>, T>;

    open spec fn view(&self) -> Map<Seq<char>, T> {
        listed_map(self.keys(), self.values())
    }
}

/// In a list of keys in order, each stands in one place.
pub proof fn lemma_one_place(keys: Seq<Seq<char>>, i: int, j: int)
    requires
        increasing(keys),
        0 <= i < keys.len(),
        0 <= j < keys.len(),
        keys[i] == keys[j],
    ensures
        i == j,
{
    text_before_irreflexive(keys[i]);
    if i < j {
        assert(text_before(keys[i], keys[j]));
    } else if j < i {
        assert(text_before(keys[j], keys[i]));
    }
}

/// What stands at a place of the lists is what the map holds.
pub proof fn lemma_listed<T>(keys: Seq<Seq<char>>, values: Seq<T>)
    requires
        increasing(keys),
        keys.len() == values.len(),
    ensures
        forall|i: int|
            0 <= i < keys.len() ==> listed_map(keys, values).dom().contains(#[trigger] keys[i])
                && listed_map(keys, values)[keys[i]] == values[i],
        forall|k: Seq<char>| #[trigger]
            listed_map(keys, values).dom().contains(k) <==> keys.contains(k),
{
    assert forall|i: int| 0 <= i < keys.len() implies listed_map(keys, values).dom().contains(
        #[trigger] keys[i],
    ) && listed_map(keys, values)[keys[i]] == values[i] by {
        lemma_one_place(keys, i, place_of(keys, keys[i]));
    }
}

impl<T> TextMap<T> {
    /// The keys, in their order.
    pub closed spec fn keys(&self) -> Seq<Seq<char>> {
        views(self.keys@)
    }

    /// The value of each key, in the order of the keys.
    pub closed spec fn values(&self) -> Seq<T> {
        self.values@
    }

    /// The keys stand in order, each once and with one value.
    pub open spec fn wf(&self) -> bool {
        &&& increasing(self.keys())
        &&& self.keys().len() == self.values().len()
    }

    pub fn new() -> (map: TextMap<T>)
        ensures
            map.wf(),
            map.keys() == Seq::<Seq<char>>::empty(),
            map.values() == Seq::<T>::empty(),
            map@ == Map::<Seq<char>, T>::empty(),
    {
        let map = TextMap { keys: Vec::new(), values: Vec::new() };
        assert(map.keys() =~= Seq::<Seq<char>>::empty());
        assert(map@ =~= Map::<Seq<char>, T>::empty());
        map
    }

    pub fn len(&self) -> (n: usize)
        ensures
            n == self.keys().len(),
    {
        self.keys.len()
    }

    pub fn key_at(&self, i: usize) -> (key: &String)
        requires
            i < self.keys().len(),
        ensures
            key@ == self.keys()[i as int],
    {
        &self.keys[i]
    }

    pub fn value_at(&self, i: usize) -> (value: &T)
        requires
            i < self.values().len(),
        ensures
            *value == self.values()[i as int],
    {
        &self.values[i]
    }

    /// The value of `key`.
    pub fn get(&self, key: &str) -> (value: Option<&T>)
        requires
            self.wf(),
        ensures
            match value {
                Some(value) => self@.dom().contains(key@) && *value == self@[key@],
                None => !self@.dom().contains(key@),
            },
    {
        let (at, there) = place(&self.keys, key);
        proof {
            lemma_listed(self.keys(), self.values());
            if there {
                assert(self.keys()[at as int] == key@);
            }
        }
        if there {
            Some(&self.values[at])
        } else {
            None
        }
    }

    /// Takes `key` out, and gives its value.
    pub fn remove(&mut self, key: &str) -> (value: Option<T>)
        requires
            old(self).wf(),
        ensures
            final(self).wf(),
            final(self)@ == old(self)@.remove(key@),
            match value {
                Some(value) => old(self)@.dom().contains(key@) && value == old(self)@[key@],
                None => !old(self)@.dom().contains(key@),
            },
    {
        let ghost keys = self.keys();
        let ghost values = self.values();
        let (at, there) = place(&self.keys, key);
        proof {
            lemma_listed(keys, values);
        }
        if !there {
            assert(self@ =~= self@.remove(key@));
            return None;
        }
        assert(keys[at as int] == key@);
        self.keys.remove(at);
        let value = self.values.remove(at);
        proof {
            assert(self.keys() =~= keys.remove(at as int));
            assert(self.values() =~= values.remove(at as int));
            let left = self.keys();
            assert forall|i: int, j: int| 0 <= i < j < left.len() implies text_before(
                #[trigger] left[i],
                #[trigger] left[j],
            ) by {
                let si = if i < at {
                    i
                } else {
                    i + 1
                };
                let sj = if j < at {
                    j
                } else {
                    j + 1
                };
                assert(left[i] == keys[si] && left[j] == keys[sj]);
            }
            lemma_listed(left, self.values());
            let was = listed_map(keys, values);
            let is = listed_map(left, self.values());
            assert forall|k: Seq<char>| #[trigger]
                is.dom().contains(k) == was.remove(key@).dom().contains(k) && (is.dom().contains(k)
                    ==> is[k] == was.remove(key@)[k]) by {
                if left.contains(k) {
                    let i = choose|i: int| 0 <= i < left.len() && left[i] == k;
                    let si = if i < at {
                        i
                    } else {
                        i + 1
                    };
                    assert(keys[si] == k);
                    if k == key@ {
                        lemma_one_place(keys, si, at as int);
                    }
                }
                if keys.contains(k) && k != key@ {
                    let i = choose|i: int| 0 <= i < keys.len() && keys[i] == k;
                    let li = if i < at {
                        i
                    } else {
                        i - 1
                    };
                    assert(left[li] == k);
                }
            }
            assert(is =~= was.remove(key@));
        }
        Some(value)
    }

    /// Gives `key` the value `value`, in place of the one it had.
    pub fn put(&mut self, key: &str, value: T)
        requires
            old(self).wf(),
        ensures
            final(self).wf(),
            final(self)@ == old(self)@.insert(key@, value),
    {
        let had = self.remove(key);
        let ghost keys = self.keys();
        let ghost values = self.values();
        let (at, there) = place(&self.keys, key);
        proof {
            lemma_listed(keys, values);
            assert(!self@.dom().contains(key@));
            assert(!there);
        }
        self.keys.insert(at, key.to_owned());
        self.values.insert(at, value);
        proof {
            assert(self.keys() =~= keys.insert(at as int, key@));
            assert(self.values() =~= values.insert(at as int, value));
            lemma_inserted_in_place(keys, at as int, key@);
            let now = self.keys();
            lemma_listed(now, self.values());
            let was = listed_map(keys, values);
            let is = listed_map(now, self.values());
            assert(now[at as int] == key@);
            assert forall|k: Seq<char>| #[trigger]
                is.dom().contains(k) == was.insert(key@, value).dom().contains(k)
                    && (is.dom().contains(k) ==> is[k] == was.insert(key@, value)[k]) by {
                if now.contains(k) && k != key@ {
                    let i = choose|i: int| 0 <= i < now.len() && now[i] == k;
                    let si = if i < at {
                        i
                    } else {
                        i - 1
                    };
                    assert(keys[si] == k);
                }
                if keys.contains(k) {
                    let i = choose|i: int| 0 <= i < keys.len() && keys[i] == k;
                    let li = if i < at {
                        i
                    } else {
                        i + 1
                    };
                    assert(now[li] == k);
                }
            }
            assert(is =~= was.insert(key@, value));
            assert(is =~= old(self)@.insert(key@, value));
        }
    }
}

} // verus!
