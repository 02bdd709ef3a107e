//! The order of text, and sorting by an order.

use vstd::prelude::*;

use crate::text::{chars_of, starts_with, viewed};

verus! {

/// Whether `a` comes before `b`: by the first character in which they differ,
/// and a proper prefix before what it starts. The order of the code points is
/// the order of their UTF-8 bytes.
pub open spec fn text_before(a: Seq<char>, b: Seq<char>) -> bool
    decreases a.len(),
{
    if b.len() == 0 {
        false
    } else if a.len() == 0 {
        true
    } else if a[0] != b[0] {
        a[0] < b[0]
    } else {
        text_before(a.skip(1), b.skip(1))
    }
}

/// Whether `a` comes before `b`.
pub fn is_text_before(a: &str, b: &str) -> (r: bool)
    ensures
        r == text_before(a@, b@),
{
    let left = chars_of(a);
    let right = chars_of(b);
    let mut i: usize = 0;
    assert(a@.skip(0) =~= a@ && b@.skip(0) =~= b@);
    while i < left.len() && i < right.len()
        invariant
            left@ == a@,
            right@ == b@,
            i <= a@.len(),
            i <= b@.len(),
            text_before(a@, b@) == text_before(a@.skip(i as int), b@.skip(i as int)),
        decreases a@.len() - i,
    {
        if left[i] != right[i] {
            return left[i] < right[i];
        }
        assert(a@.skip(i as int).skip(1) =~= a@.skip(i + 1));
        assert(b@.skip(i as int).skip(1) =~= b@.skip(i + 1));
        i = i + 1;
    }
    i < right.len()
}

pub proof fn text_before_irreflexive(a: Seq<char>)
    ensures
        !text_before(a, a),
    decreases a.len(),
{
    if a.len() > 0 {
        text_before_irreflexive(a.skip(1));
    }
}

pub proof fn text_before_transitive(a: Seq<char>, b: Seq<char>, c: Seq<char>)
    requires
        text_before(a, b),
        text_before(b, c),
    ensures
        text_before(a, c),
    decreases a.len(),
{
    if a.len() > 0 && a[0] == b[0] && b[0] == c[0] {
        text_before_transitive(a.skip(1), b.skip(1), c.skip(1));
    }
}

/// Two different texts stand in some order.
pub proof fn text_before_total(a: Seq<char>, b: Seq<char>)
    ensures
        text_before(a, b) || text_before(b, a) || a == b,
    decreases a.len(),
{
    if a.len() > 0 && b.len() > 0 && a[0] == b[0] {
        text_before_total(a.skip(1), b.skip(1));
        if a.skip(1) == b.skip(1) {
            assert(a =~= seq![a[0]] + a.skip(1));
            assert(b =~= seq![b[0]] + b.skip(1));
        }
    } else if a.len() == 0 && b.len() == 0 {
        assert(a =~= b);
    }
}

/// One text comes before another where they first differ: there it has ended,
/// or has the lower code point.
pub proof fn text_before_is_by_the_first_difference(a: Seq<char>, b: Seq<char>, i: int)
    requires
        0 <= i <= a.len(),
        i <= b.len(),
        forall|k: int| 0 <= k < i ==> a[k] == b[k],
        i < a.len() && i < b.len() ==> a[i] != b[i],
    ensures
        text_before(a, b) <==> i < b.len() && (i == a.len() || a[i] < b[i]),
    decreases i,
{
    if i > 0 {
        assert(a[0] == b[0]);
        assert forall|k: int| 0 <= k < i - 1 implies a.skip(1)[k] == b.skip(1)[k] by {
            assert(a[k + 1] == b[k + 1]);
        }
        text_before_is_by_the_first_difference(a.skip(1), b.skip(1), i - 1);
    }
}

/// What stands between two texts with one prefix has that prefix.
pub proof fn lemma_prefix_between(prefix: Seq<char>, x: Seq<char>, y: Seq<char>, z: Seq<char>)
    requires
        starts_with(x, prefix),
        starts_with(z, prefix),
        !text_before(y, x),
        !text_before(z, y),
    ensures
        starts_with(y, prefix),
    decreases prefix.len(),
{
    if prefix.len() > 0 {
        assert(x[0] == x.take(prefix.len() as int)[0]);
        assert(z[0] == z.take(prefix.len() as int)[0]);
        assert(x.skip(1).take(prefix.len() - 1) =~= x.take(prefix.len() as int).skip(1));
        assert(z.skip(1).take(prefix.len() - 1) =~= z.take(prefix.len() as int).skip(1));
        lemma_prefix_between(prefix.skip(1), x.skip(1), y.skip(1), z.skip(1));
        assert(y.take(prefix.len() as int) =~= seq![y[0]] + y.skip(1).take(prefix.len() - 1));
        assert(prefix =~= seq![prefix[0]] + prefix.skip(1));
    } else {
        assert(y.take(0) =~= prefix);
    }
}

/// Values that stand in a strict order.
pub trait Ordered: Sized + View {
    /// Whether `a` comes before `b`.
    spec fn before(a: Self::V, b: Self::V) -> bool;

    /// Of two values that both do not come before each other and a third,
    /// the outer two do not either: the order sorts every sequence.
    proof fn not_before_transitive(a: Self::V, b: Self::V, c: Self::V)
        requires
            !Self::before(b, a),
            !Self::before(c, b),
        ensures
            !Self::before(c, a),
    ;

    /// Nothing comes before something that comes before it.
    proof fn before_asymmetric(a: Self::V, b: Self::V)
        requires
            Self::before(a, b),
        ensures
            !Self::before(b, a),
    ;

    fn is_before(&self, other: &Self) -> (r: bool)
        ensures
            r == Self::before(self@, other@),
    ;
}

impl Ordered for String {
    open spec fn before(a: Seq<char>, b: Seq<char>) -> bool {
        text_before(a, b)
    }

    proof fn not_before_transitive(a: Seq<char>, b: Seq<char>, c: Seq<char>) {
        text_before_total(a, b);
        text_before_total(b, c);
        if text_before(c, a) {
            if a == b || b == c {
            } else {
                text_before_transitive(a, b, c);
                text_before_transitive(a, c, a);
                text_before_irreflexive(a);
            }
        }
    }

    proof fn before_asymmetric(a: Seq<char>, b: Seq<char>) {
        if text_before(b, a) {
            text_before_transitive(a, b, a);
            text_before_irreflexive(a);
        }
    }

    fn is_before(&self, other: &Self) -> (r: bool) {
        is_text_before(self.as_str(), other.as_str())
    }
}

/// `x` put into `s` behind everything it does not come before.
pub open spec fn inserted<T: Ordered>(s: Seq<T::V>, x: T::V) -> Seq<T::V>
    decreases s.len(),
{
    if s.len() > 0 && T::before(x, s.last()) {
        inserted::<T>(s.drop_last(), x).push(s.last())
    } else {
        s.push(x)
    }
}

/// `s` in order, what is equal in order left as it stood.
pub open spec fn sorted<T: Ordered>(s: Seq<T::V>) -> Seq<T::V>
    decreases s.len(),
{
    if s.len() == 0 {
        s
    } else {
        inserted::<T>(sorted::<T>(s.drop_last()), s.last())
    }
}

/// Nothing stands behind something it comes before.
pub open spec fn in_order<T: Ordered>(s: Seq<T::V>) -> bool {
    forall|i: int, j: int| 0 <= i < j < s.len() ==> !T::before(#[trigger] s[j], #[trigger] s[i])
}

proof fn lemma_inserted<T: Ordered>(s: Seq<T::V>, x: T::V)
    requires
        in_order::<T>(s),
    ensures
        in_order::<T>(inserted::<T>(s, x)),
        inserted::<T>(s, x).len() == s.len() + 1,
        inserted::<T>(s, x).to_multiset() == s.to_multiset().insert(x),
    decreases s.len(),
{
    broadcast use vstd::seq_lib::group_to_multiset_ensures;

    if s.len() > 0 && T::before(x, s.last()) {
        let front = s.drop_last();
        lemma_inserted::<T>(front, x);
        let out = inserted::<T>(front, x).push(s.last());
        assert(s =~= front.push(s.last()));
        assert(out.to_multiset() =~= s.to_multiset().insert(x));
        assert forall|i: int, j: int| 0 <= i < j < out.len() implies !T::before(
            #[trigger] out[j],
            #[trigger] out[i],
        ) by {
            if j == out.len() - 1 {
                T::before_asymmetric(x, s.last());
                lemma_inserted_holds::<T>(front, x, i);
                if out[i] != x {
                    let k = choose|k: int| 0 <= k < front.len() && front[k] == out[i];
                    assert(s[k] == out[i]);
                    assert(s[s.len() - 1] == s.last());
                }
            }
        }
    } else if s.len() > 0 {
        let out = s.push(x);
        assert forall|i: int, j: int| 0 <= i < j < out.len() implies !T::before(
            #[trigger] out[j],
            #[trigger] out[i],
        ) by {
            if j == out.len() - 1 {
                if i < s.len() - 1 {
                    assert(!T::before(s[s.len() - 1], s[i]));
                    T::not_before_transitive(s[i], s.last(), x);
                }
            }
        }
    }
}

/// What stands in `inserted(s, x)` is `x` or stands in `s`.
proof fn lemma_inserted_holds<T: Ordered>(s: Seq<T::V>, x: T::V, i: int)
    requires
        0 <= i < inserted::<T>(s, x).len(),
    ensures
        inserted::<T>(s, x)[i] == x || exists|k: int|
            0 <= k < s.len() && s[k] == inserted::<T>(s, x)[i],
    decreases s.len(),
{
    let out = inserted::<T>(s, x);
    if s.len() > 0 && T::before(x, s.last()) {
        let front = s.drop_last();
        if i < inserted::<T>(front, x).len() {
            lemma_inserted_holds::<T>(front, x, i);
            if out[i] != x {
                let k = choose|k: int| 0 <= k < front.len() && front[k] == out[i];
                assert(s[k] == out[i]);
            }
        } else {
            assert(s[s.len() - 1] == out[i]);
        }
    } else if i < s.len() {
        assert(s[i] == out[i]);
    }
}

/// Sorting gives the same values in order.
pub proof fn sorted_is_in_order<T: Ordered>(s: Seq<T::V>)
    ensures
        in_order::<T>(sorted::<T>(s)),
        sorted::<T>(s).len() == s.len(),
        sorted::<T>(s).to_multiset() == s.to_multiset(),
    decreases s.len(),
{
    broadcast use vstd::seq_lib::group_to_multiset_ensures;

    if s.len() > 0 {
        sorted_is_in_order::<T>(s.drop_last());
        lemma_inserted::<T>(sorted::<T>(s.drop_last()), s.last());
        assert(s =~= s.drop_last().push(s.last()));
    }
}

/// What stands in a sorted sequence is what stood in it before.
pub proof fn sorted_holds_the_same<T: Ordered>(s: Seq<T::V>, x: T::V)
    ensures
        sorted::<T>(s).contains(x) == s.contains(x),
{
    broadcast use vstd::seq_lib::group_to_multiset_ensures;

    sorted_is_in_order::<T>(s);
    assert(sorted::<T>(s).to_multiset().count(x) == s.to_multiset().count(x));
    assert(s.contains(x) <==> s.to_multiset().count(x) > 0);
    assert(sorted::<T>(s).contains(x) <==> sorted::<T>(s).to_multiset().count(x) > 0);
}

/// Whether two values that come neither before the other are one value.
pub open spec fn tells_apart<T: Ordered>() -> bool {
    forall|a: T::V, b: T::V| !#[trigger] T::before(a, b) && !T::before(b, a) ==> a == b
}

/// In order, the same values are the same sequence.
pub proof fn in_order_is_unique<T: Ordered>(s: Seq<T::V>, t: Seq<T::V>)
    requires
        tells_apart::<T>(),
        in_order::<T>(s),
        in_order::<T>(t),
        s.to_multiset() == t.to_multiset(),
    ensures
        s == t,
    decreases s.len(),
{
    broadcast use vstd::seq_lib::group_to_multiset_ensures;

    assert(s.len() == s.to_multiset().len() && t.len() == t.to_multiset().len());
    if s.len() == 0 {
        assert(s =~= t);
    } else {
        let x = s.last();
        let y = t.last();
        assert(s.contains(x) && t.contains(y));
        assert(s.to_multiset().count(x) > 0 && t.to_multiset().count(y) > 0);
        assert(t.contains(x) && s.contains(y));
        let m = choose|m: int| 0 <= m < t.len() && t[m] == x;
        let n = choose|n: int| 0 <= n < s.len() && s[n] == y;
        if m < t.len() - 1 && n < s.len() - 1 {
            assert(!T::before(t[t.len() - 1], t[m]));
            assert(!T::before(s[s.len() - 1], s[n]));
        }
        assert(x == y);
        let front = s.drop_last();
        let other = t.drop_last();
        assert(s =~= front.push(x) && t =~= other.push(x));
        assert(front.to_multiset() =~= other.to_multiset()) by {
            assert(front.to_multiset() =~= s.to_multiset().remove(x));
            assert(other.to_multiset() =~= t.to_multiset().remove(x));
        }
        assert forall|i: int, j: int| 0 <= i < j < front.len() implies !T::before(
            #[trigger] front[j],
            #[trigger] front[i],
        ) by {
            assert(front[i] == s[i] && front[j] == s[j]);
        }
        assert forall|i: int, j: int| 0 <= i < j < other.len() implies !T::before(
            #[trigger] other[j],
            #[trigger] other[i],
        ) by {
            assert(other[i] == t[i] && other[j] == t[j]);
        }
        in_order_is_unique::<T>(front, other);
    }
}

/// Puts `items` in order.
pub fn sort<T: Ordered>(items: Vec<T>) -> (out: Vec<T>)
    ensures
        viewed(out@) == sorted::<T>(viewed(items@)),
{
    let ghost all = viewed(items@);
    let mut rest = items;
    let mut waiting: Vec<T> = Vec::new();
    // The order of insertion is front to back, so turn the vector round first.
    while rest.len() > 0
        invariant
            all == viewed(items@),
            rest@ + waiting@.reverse() == items@,
        decreases rest@.len(),
    {
        let ghost before = rest@;
        let ghost after = waiting@;
        if let Some(x) = rest.pop() {
            waiting.push(x);
            assert(before =~= rest@.push(x));
            assert(waiting@.reverse() =~= seq![x] + after.reverse());
            assert(rest@ + waiting@.reverse() =~= before + after.reverse());
        }
    }
    assert(waiting@.reverse() =~= items@);
    let mut out: Vec<T> = Vec::new();
    assert(all.take(0) =~= Seq::<T::V>::empty());
    assert(viewed(out@) =~= Seq::<T::V>::empty());
    while waiting.len() > 0
        invariant
            all == viewed(items@),
            waiting@.len() <= items@.len(),
            waiting@ == items@.skip(items@.len() - waiting@.len()).reverse(),
            viewed(out@) == sorted::<T>(all.take(items@.len() - waiting@.len())),
        decreases waiting@.len(),
    {
        let ghost done = items@.len() - waiting@.len();
        let ghost before = waiting@;
        if let Some(x) = waiting.pop() {
            assert(x == before.last());
            assert(x == items@[done]);
            assert(x@ == all[done]);
            assert(waiting@ =~= items@.skip(done + 1).reverse());
            assert(all.take(done + 1).drop_last() =~= all.take(done));
            insert(&mut out, x);
        }
    }
    assert(all.take(items@.len() as int) =~= all);
    out
}

fn insert<T: Ordered>(out: &mut Vec<T>, x: T)
    ensures
        viewed(final(out)@) == inserted::<T>(viewed(old(out)@), x@),
{
    let ghost all = viewed(out@);
    let mut at: usize = out.len();
    assert(all.take(at as int) =~= all);
    assert(all.skip(at as int) =~= Seq::<T::V>::empty());
    while at > 0 && x.is_before(&out[at - 1])
        invariant
            at <= out@.len(),
            out@ == old(out)@,
            all == viewed(out@),
            inserted::<T>(all, x@) == inserted::<T>(all.take(at as int), x@) + all.skip(at as int),
        decreases at,
    {
        assert(all.take(at as int).last() == out@[at - 1]@);
        assert(all.take(at as int).drop_last() =~= all.take(at - 1));
        assert(inserted::<T>(all.take(at as int), x@) + all.skip(at as int) =~= inserted::<T>(
            all.take(at - 1),
            x@,
        ) + all.skip(at - 1));
        at = at - 1;
    }
    assert(at > 0 ==> all.take(at as int).last() == out@[at - 1]@);
    assert(inserted::<T>(all.take(at as int), x@) == all.take(at as int).push(x@));
    out.insert(at, x);
    assert(viewed(out@) =~= all.take(at as int).push(x@) + all.skip(at as int));
}

} // verus!
