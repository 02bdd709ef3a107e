//! A set of texts, kept in the order of text.

use vstd::prelude::*;

use crate::order::{
    is_text_before, text_before, text_before_irreflexive, text_before_total,
    text_before_transitive,
};
use crate::text::views;

verus! {

/// Each text comes before the ones behind it, so none occurs twice.
pub open spec fn increasing(s: Seq<Seq<char>>) -> bool {
    forall|i: int, j: int| 0 <= i < j < s.len() ==> text_before(#[trigger] s[i], #[trigger] s[j])
}

/// Where `text` stands in `keys`, or would have to stand, and whether it
/// stands there.
pub(crate) fn place(keys: &Vec<String>, text: &str) -> (r: (usize, bool))
    requires
        increasing(views(keys@)),
    ensures
        r.0 <= keys@.len(),
        r.1 == views(keys@).contains(text@),
        r.1 ==> r.0 < keys@.len() && keys@[r.0 as int]@ == text@,
        forall|j: int| 0 <= j < r.0 ==> text_before(#[trigger] views(keys@)[j], text@),
        forall|j: int|
            r.0 <= j < keys@.len() && !(r.1 && j == r.0) ==> text_before(
                text@,
                #[trigger] views(keys@)[j],
            ),
{
    let ghost all = views(keys@);
    let mut low: usize = 0;
    let mut high: usize = keys.len();
    while low < high
        invariant
            all == views(keys@),
            increasing(all),
            low <= high <= keys@.len(),
            forall|j: int| 0 <= j < low ==> text_before(#[trigger] all[j], text@),
            forall|j: int| high <= j < all.len() ==> text_before(text@, #[trigger] all[j]),
        decreases high - low,
    {
        let mid: usize = low + (high - low) / 2;
        assert(all[mid as int] == keys@[mid as int]@);
        if is_text_before(keys[mid].as_str(), text) {
            assert forall|j: int| 0 <= j < mid + 1 implies text_before(#[trigger] all[j], text@) by {
                if j < mid {
                    text_before_transitive(all[j], all[mid as int], text@);
                }
            }
            low = mid + 1;
        } else if is_text_before(text, keys[mid].as_str()) {
            assert forall|j: int| mid <= j < all.len() implies text_before(text@, #[trigger] all[j]) by {
                if j > mid {
                    text_before_transitive(text@, all[mid as int], all[j]);
                }
            }
            high = mid;
        } else {
            proof {
                text_before_total(all[mid as int], text@);
            }
            return (mid, true);
        }
    }
    assert forall|j: int| 0 <= j < all.len() implies all[j] != text@ by {
        text_before_irreflexive(text@);
        if j < low {
            assert(text_before(all[j], text@));
        } else {
            assert(text_before(text@, all[j]));
        }
    }
    (low, false)
}

/// Putting a text where it belongs keeps the order.
pub(crate) proof fn lemma_inserted_in_place(s: Seq<Seq<char>>, at: int, text: Seq<char>)
    requires
        increasing(s),
        0 <= at <= s.len(),
        forall|j: int| 0 <= j < at ==> text_before(#[trigger] s[j], text),
        forall|j: int| at <= j < s.len() ==> text_before(text, #[trigger] s[j]),
    ensures
        increasing(s.insert(at, text)),
{
    let after = s.insert(at, text);
    assert forall|i: int, j: int| 0 <= i < j < after.len() implies text_before(
        #[trigger] after[i],
        #[trigger] after[j],
    ) by {
        let si = if i < at {
            i
        } else {
            i - 1
        };
        let sj = if j < at {
            j
        } else {
            j - 1
        };
        if i == at {
            assert(after[j] == s[j - 1]);
        } else if j == at {
            assert(after[i] == s[i]);
        } else {
            assert(after[i] == s[si] && after[j] == s[sj]);
        }
    }
}

/// A set of texts.
pub struct TextSet {
    items: Vec<String>,
}

impl TextSet {
    /// The texts of the set, in their order.
    pub closed spec fn listed(&self) -> Seq<Seq<char>> {
        views(self.items@)
    }

    /// The texts stand in order, each once.
    pub open spec fn wf(&self) -> bool {
        increasing(self.listed())
    }

    pub open spec fn contains(&self, text: Seq<char>) -> bool {
        self.listed().contains(text)
    }

    pub fn new() -> (set: TextSet)
        ensures
            set.wf(),
            set.listed() == Seq::<Seq<char>>::empty(),
    {
        let set = TextSet { items: Vec::new() };
        assert(set.listed() =~= Seq::<Seq<char>>::empty());
        set
    }

    pub fn len(&self) -> (n: usize)
        ensures
            n == self.listed().len(),
    {
        self.items.len()
    }

    pub fn at(&self, i: usize) -> (text: &String)
        requires
            i < self.listed().len(),
        ensures
            text@ == self.listed()[i as int],
    {
        &self.items[i]
    }

    pub fn has(&self, text: &str) -> (r: bool)
        requires
            self.wf(),
        ensures
            r == self.contains(text@),
    {
        place(&self.items, text).1
    }

    /// Adds `text`, unless it is there.
    pub fn insert(&mut self, text: &str)
        requires
            old(self).wf(),
        ensures
            final(self).wf(),
            forall|t: Seq<char>| #[trigger]
                final(self).contains(t) <==> old(self).contains(t) || t == text@,
    {
        let ghost before = self.listed();
        let (at, there) = place(&self.items, text);
        if there {
            return;
        }
        self.items.insert(at, text.to_owned());
        let ghost after = self.listed();
        proof {
            assert(after =~= before.insert(at as int, text@));
            lemma_inserted_in_place(before, at as int, text@);
            assert forall|t: Seq<char>| #[trigger] self.contains(t) <==> before.contains(t) || t
                == text@ by {
                if before.contains(t) {
                    let k = choose|k: int| 0 <= k < before.len() && before[k] == t;
                    if k < at {
                        assert(after[k] == t);
                    } else {
                        assert(after[k + 1] == t);
                    }
                }
                assert(after[at as int] == text@);
                if after.contains(t) && t != text@ {
                    let k = choose|k: int| 0 <= k < after.len() && after[k] == t;
                    if k < at {
                        assert(before[k] == t);
                    } else {
                        assert(before[k - 1] == t);
                    }
                }
            }
        }
    }
}

/// Two sets that hold the same texts list them alike.
pub proof fn same_texts_are_listed_alike(a: Seq<Seq<char>>, b: Seq<Seq<char>>)
    requires
        increasing(a),
        increasing(b),
        forall|t: Seq<char>| a.contains(t) <==> #[trigger] b.contains(t),
    ensures
        a == b,
    decreases a.len(),
{
    if a.len() == 0 {
        if b.len() > 0 {
            assert(b.contains(b[0]));
        }
        assert(a =~= b);
    } else {
        assert(a.contains(a[0]));
        assert(b.contains(a[0]));
        let k = choose|k: int| 0 <= k < b.len() && b[k] == a[0];
        assert(b.contains(b[0]));
        let m = choose|m: int| 0 <= m < a.len() && a[m] == b[0];
        if k > 0 {
            assert(text_before(b[0], b[k]));
            if m > 0 {
                assert(text_before(a[0], a[m]));
                text_before_transitive(a[0], b[0], a[0]);
            }
            text_before_irreflexive(a[0]);
        }
        assert(a[0] == b[0]);
        let x = a.skip(1);
        let y = b.skip(1);
        assert forall|t: Seq<char>| x.contains(t) <==> #[trigger] y.contains(t) by {
            if x.contains(t) {
                let i = choose|i: int| 0 <= i < x.len() && x[i] == t;
                assert(a[i + 1] == t && text_before(a[0], a[i + 1]));
                assert(a.contains(t) && b.contains(t));
                let j = choose|j: int| 0 <= j < b.len() && b[j] == t;
                text_before_irreflexive(t);
                assert(y[j - 1] == t);
            }
            if y.contains(t) {
                let i = choose|i: int| 0 <= i < y.len() && y[i] == t;
                assert(b[i + 1] == t && text_before(b[0], b[i + 1]));
                assert(b.contains(t));
                assert(a.contains(t));
                let j = choose|j: int| 0 <= j < a.len() && a[j] == t;
                text_before_irreflexive(t);
                assert(x[j - 1] == t);
            }
        }
        same_texts_are_listed_alike(x, y);
        assert(a =~= seq![a[0]] + x);
        assert(b =~= seq![b[0]] + y);
    }
}

} // verus!
