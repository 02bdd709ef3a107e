//! Text as the records and messages need it: cutting at a character, lines,
//! decimal numbers, and joining pieces. A string is modelled as the sequence
//! of its characters.

use vstd::prelude::*;
use vstd::string::*;

verus! {

/// The characters of each string.
pub open spec fn views(items: Seq<String>) -> Seq<Seq<char>> {
    viewed(items)
}

/// The characters of a string, if there is one.
pub open spec fn opt_view(text: Option<String>) -> Option<Seq<char>> {
    match text {
        Some(text) => Some(text@),
        None => None,
    }
}

/// What the values of a sequence stand for.
pub open spec fn viewed<T: View>(s: Seq<T>) -> Seq<T::V> {
    s.map_values(|x: T| x@)
}

/// Where `c` first stands in `s`, or the length of `s` if it does not.
pub open spec fn cut(s: Seq<char>, c: char) -> int
    decreases s.len(),
{
    if s.len() == 0 || s[0] == c {
        0
    } else {
        1 + cut(s.skip(1), c)
    }
}

/// The characters between the `c`s of `s`: one piece more than there are `c`s.
pub open spec fn split(s: Seq<char>, c: char) -> Seq<Seq<char>>
    decreases s.len(),
    via split_decreases
{
    if cut(s, c) < s.len() {
        seq![s.take(cut(s, c))] + split(s.skip(cut(s, c) + 1), c)
    } else {
        seq![s]
    }
}

#[via_fn]
proof fn split_decreases(s: Seq<char>, c: char) {
    lemma_cut(s, c);
}

/// `s` without one trailing carriage return.
pub open spec fn without_return(s: Seq<char>) -> Seq<char> {
    if s.len() > 0 && s.last() == '\r' {
        s.drop_last()
    } else {
        s
    }
}

/// The lines of `s`. A line ends at `\n` or `\r\n`, which is no part of it,
/// and the last one may lack its end.
pub open spec fn lines(s: Seq<char>) -> Seq<Seq<char>>
    decreases s.len(),
    via lines_decreases
{
    if s.len() == 0 {
        Seq::empty()
    } else if cut(s, '\n') < s.len() {
        seq![without_return(s.take(cut(s, '\n')))] + lines(s.skip(cut(s, '\n') + 1))
    } else {
        seq![s]
    }
}

#[via_fn]
proof fn lines_decreases(s: Seq<char>) {
    lemma_cut(s, '\n');
}

/// `pieces` one after the other, with `separator` between each two.
pub open spec fn joined(pieces: Seq<Seq<char>>, separator: Seq<char>) -> Seq<char>
    decreases pieces.len(),
{
    if pieces.len() == 0 {
        Seq::empty()
    } else if pieces.len() == 1 {
        pieces[0]
    } else {
        joined(pieces.drop_last(), separator) + separator + pieces.last()
    }
}

/// `pieces` one after the other.
pub open spec fn concat(pieces: Seq<Seq<char>>) -> Seq<char>
    decreases pieces.len(),
{
    if pieces.len() == 0 {
        Seq::empty()
    } else {
        concat(pieces.drop_last()) + pieces.last()
    }
}

/// Whether `prefix` starts `s`.
pub open spec fn starts_with(s: Seq<char>, prefix: Seq<char>) -> bool {
    prefix.len() <= s.len() && s.take(prefix.len() as int) == prefix
}

pub proof fn lemma_cut(s: Seq<char>, c: char)
    ensures
        0 <= cut(s, c) <= s.len(),
        forall|j: int| 0 <= j < cut(s, c) ==> s[j] != c,
        cut(s, c) < s.len() ==> s[cut(s, c)] == c,
    decreases s.len(),
{
    if s.len() > 0 && s[0] != c {
        lemma_cut(s.skip(1), c);
        assert forall|j: int| 0 <= j < cut(s, c) implies s[j] != c by {
            if j > 0 {
                assert(s.skip(1)[j - 1] == s[j]);
            }
        }
    }
}

pub proof fn lemma_cut_is(s: Seq<char>, c: char, i: int)
    requires
        0 <= i <= s.len(),
        forall|j: int| 0 <= j < i ==> s[j] != c,
        i < s.len() ==> s[i] == c,
    ensures
        cut(s, c) == i,
{
    lemma_cut(s, c);
    if cut(s, c) < i {
        assert(s[cut(s, c)] == c);
    } else if i < cut(s, c) {
        assert(s[i] == c);
    }
}

/// Text without a `c`, then a `c`: the cut is between.
pub proof fn lemma_cut_after(head: Seq<char>, c: char, rest: Seq<char>)
    requires
        !head.contains(c),
    ensures
        cut(head.push(c) + rest, c) == head.len(),
        (head.push(c) + rest).take(head.len() as int) == head,
        (head.push(c) + rest).skip(head.len() as int + 1) == rest,
{
    let s = head.push(c) + rest;
    assert forall|j: int| 0 <= j < head.len() implies s[j] != c by {
        assert(s[j] == head[j]);
    }
    lemma_cut_is(s, c, head.len() as int);
    assert(s.take(head.len() as int) =~= head);
    assert(s.skip(head.len() as int + 1) =~= rest);
}

/// Text without a `c` is its own only piece.
pub proof fn lemma_cut_none(s: Seq<char>, c: char)
    requires
        !s.contains(c),
    ensures
        cut(s, c) == s.len(),
{
    lemma_cut(s, c);
    if cut(s, c) < s.len() {
        assert(s[cut(s, c)] == c);
    }
}

/// A line that stands before more lines is the first of them.
pub proof fn lemma_lines_first(line: Seq<char>, rest: Seq<char>)
    requires
        !line.contains('\n'),
        line.len() > 0 ==> line.last() != '\r',
    ensures
        lines(line.push('\n') + rest) == seq![line] + lines(rest),
{
    lemma_cut_after(line, '\n', rest);
}

/// The pieces put together with their separator are the first one, the
/// separator, and the others put together.
pub proof fn lemma_joined_first(pieces: Seq<Seq<char>>, separator: Seq<char>)
    requires
        pieces.len() >= 2,
    ensures
        joined(pieces, separator) == pieces[0] + separator + joined(pieces.skip(1), separator),
    decreases pieces.len(),
{
    let front = pieces.drop_last();
    if pieces.len() == 2 {
        assert(joined(front, separator) == pieces[0]);
        assert(joined(pieces.skip(1), separator) == pieces[1]);
    } else {
        lemma_joined_first(front, separator);
        assert(pieces.skip(1).drop_last() =~= front.skip(1));
        assert(pieces.skip(1).last() == pieces.last());
        assert(joined(pieces, separator) =~= pieces[0] + separator + joined(
            pieces.skip(1),
            separator,
        ));
    }
}

/// Pieces without the separator come back from splitting what joins them.
pub proof fn lemma_split_joined(pieces: Seq<Seq<char>>, c: char)
    requires
        pieces.len() > 0,
        forall|i: int| 0 <= i < pieces.len() ==> !(#[trigger] pieces[i]).contains(c),
    ensures
        split(joined(pieces, seq![c]), c) == pieces,
    decreases pieces.len(),
{
    assert(!pieces[0].contains(c));
    if pieces.len() == 1 {
        lemma_cut_none(pieces[0], c);
        assert(split(pieces[0], c) =~= pieces);
    } else {
        let rest = pieces.skip(1);
        assert forall|i: int| 0 <= i < rest.len() implies !(#[trigger] rest[i]).contains(c) by {
            assert(rest[i] == pieces[i + 1]);
        }
        lemma_split_joined(rest, c);
        lemma_joined_first(pieces, seq![c]);
        assert(pieces[0] + seq![c] + joined(rest, seq![c]) =~= pieces[0].push(c) + joined(
            rest,
            seq![c],
        ));
        lemma_cut_after(pieces[0], c, joined(rest, seq![c]));
        assert(seq![pieces[0]] + rest =~= pieces);
    }
}

/// Texts put together are the first one and the others put together.
pub proof fn lemma_concat_first(pieces: Seq<Seq<char>>)
    requires
        pieces.len() > 0,
    ensures
        concat(pieces) == pieces[0] + concat(pieces.skip(1)),
    decreases pieces.len(),
{
    let front = pieces.drop_last();
    if pieces.len() == 1 {
        assert(concat(front) =~= Seq::<char>::empty());
        assert(concat(pieces.skip(1)) =~= Seq::<char>::empty());
        assert(concat(pieces) =~= pieces[0]);
    } else {
        lemma_concat_first(front);
        assert(pieces.skip(1).drop_last() =~= front.skip(1));
        assert(concat(pieces) =~= pieces[0] + concat(pieces.skip(1)));
    }
}

/// The characters of `s` as a vector.
pub fn chars_of(s: &str) -> (chars: Vec<char>)
    ensures
        chars@ == s@,
{
    let mut chars: Vec<char> = Vec::new();
    for c in it: s.chars()
        invariant
            it.seq() == s@,
            chars@ == s@.take(it.index()),
    {
        chars.push(c);
        assert(s@.take(it.index() + 1) == s@.take(it.index()).push(c));
    }
    assert(s@.take(s@.len() as int) == s@);
    chars
}

/// Whether two strings hold the same characters.
pub fn same(a: &str, b: &str) -> (r: bool)
    ensures
        r == (a@ == b@),
{
    a.to_owned() == b.to_owned()
}

/// Where `c` first stands in `chars` from `from` on, or the length.
pub fn find_from(chars: &Vec<char>, from: usize, c: char) -> (at: usize)
    requires
        from <= chars@.len(),
    ensures
        from <= at <= chars@.len(),
        at - from == cut(chars@.skip(from as int), c),
{
    let mut at: usize = from;
    while at < chars.len() && chars[at] != c
        invariant
            from <= at <= chars@.len(),
            forall|j: int| from <= j < at ==> chars@[j] != c,
        decreases chars@.len() - at,
    {
        at = at + 1;
    }
    proof {
        let rest = chars@.skip(from as int);
        assert forall|j: int| 0 <= j < at - from implies rest[j] != c by {
            assert(rest[j] == chars@[from + j]);
        }
        lemma_cut_is(rest, c, at - from);
    }
    at
}

/// The piece of `s` before the first `c` and the piece after it.
pub fn split_once(s: &str, c: char) -> (r: Option<(String, String)>)
    ensures
        match r {
            Some((head, tail)) => cut(s@, c) < s@.len() && head@ == s@.take(cut(s@, c))
                && tail@ == s@.skip(cut(s@, c) + 1),
            None => cut(s@, c) == s@.len(),
        },
{
    let chars = chars_of(s);
    let at = find_from(&chars, 0, c);
    assert(chars@.skip(0) == s@);
    if at < chars.len() {
        let head = s.substring_char(0, at).to_owned();
        let tail = s.substring_char(at + 1, chars.len()).to_owned();
        assert(s@.subrange(0, at as int) == s@.take(at as int));
        assert(s@.subrange(at + 1, s@.len() as int) == s@.skip(at + 1));
        Some((head, tail))
    } else {
        None
    }
}

/// Whether the texts start with those of `first`, in the same order.
pub fn starts_with_texts(texts: &Vec<String>, first: &Vec<String>) -> (r: bool)
    ensures
        r == views(first@).is_prefix_of(views(texts@)),
{
    let ghost all = views(texts@);
    let ghost wanted = views(first@);
    if first.len() > texts.len() {
        assert(wanted.len() > all.len());
        return false;
    }
    let mut i: usize = 0;
    while i < first.len()
        invariant
            all == views(texts@),
            wanted == views(first@),
            first@.len() <= texts@.len(),
            i <= first@.len(),
            forall|j: int| 0 <= j < i ==> all[j] == #[trigger] wanted[j],
        decreases first@.len() - i,
    {
        assert(all[i as int] == texts@[i as int]@ && wanted[i as int] == first@[i as int]@);
        if !same(texts[i].as_str(), first[i].as_str()) {
            assert(all.subrange(0, wanted.len() as int)[i as int] != wanted[i as int]);
            return false;
        }
        i = i + 1;
    }
    assert(wanted =~= all.subrange(0, wanted.len() as int));
    true
}

/// Whether two lists hold the same texts in the same order.
pub fn same_texts(a: &Vec<String>, b: &Vec<String>) -> (r: bool)
    ensures
        r == (views(a@) == views(b@)),
{
    let r = a.len() == b.len() && starts_with_texts(a, b);
    proof {
        if r {
            assert(views(a@) =~= views(a@).subrange(0, views(b@).len() as int));
        } else if views(a@) == views(b@) {
            assert(views(a@).len() == a@.len() && views(b@).len() == b@.len());
            assert(views(a@) =~= views(a@).subrange(0, views(b@).len() as int));
        }
    }
    r
}

/// The pieces of `s` between its `c`s.
pub fn split_at_each(s: &str, c: char) -> (pieces: Vec<String>)
    ensures
        views(pieces@) == split(s@, c),
{
    let chars = chars_of(s);
    let mut pieces: Vec<String> = Vec::new();
    let mut from: usize = 0;
    assert(s@.skip(0) == s@);
    assert(views(pieces@) + split(s@, c) == split(s@, c));
    loop
        invariant
            chars@ == s@,
            from <= s@.len(),
            views(pieces@) + split(s@.skip(from as int), c) == split(s@, c),
        decreases s@.len() - from,
    {
        let at = find_from(&chars, from, c);
        let piece = s.substring_char(from, at).to_owned();
        let ghost rest = s@.skip(from as int);
        let ghost before = pieces@;
        assert(piece@ == rest.take(at - from));
        pieces.push(piece);
        assert(views(pieces@) == views(before).push(piece@));
        if at == chars.len() {
            assert(rest.take(at - from) == rest);
            assert(views(pieces@) == views(before) + seq![rest]);
            return pieces;
        }
        assert(rest.skip(at - from + 1) == s@.skip(at + 1));
        assert(views(pieces@) + split(s@.skip(at + 1), c) == views(before) + (seq![piece@] + split(
            s@.skip(at + 1),
            c,
        )));
        from = at + 1;
    }
}

/// The lines of `s`.
pub fn lines_of(s: &str) -> (found: Vec<String>)
    ensures
        views(found@) == lines(s@),
{
    let chars = chars_of(s);
    let mut found: Vec<String> = Vec::new();
    let mut from: usize = 0;
    assert(s@.skip(0) == s@);
    assert(views(found@) + lines(s@) == lines(s@));
    while from < chars.len()
        invariant
            chars@ == s@,
            from <= s@.len(),
            views(found@) + lines(s@.skip(from as int)) == lines(s@),
        decreases s@.len() - from,
    {
        let at = find_from(&chars, from, '\n');
        let ghost rest = s@.skip(from as int);
        let ghost before = found@;
        if at == chars.len() {
            let line = s.substring_char(from, at).to_owned();
            assert(line@ == rest);
            found.push(line);
            assert(views(found@) == views(before) + seq![rest]);
            assert(lines(s@.skip(at as int)) == Seq::<Seq<char>>::empty());
            from = at;
        } else {
            let end: usize = if at > from && chars[at - 1] == '\r' {
                at - 1
            } else {
                at
            };
            let line = s.substring_char(from, end).to_owned();
            assert(line@ == without_return(rest.take(at - from)));
            found.push(line);
            assert(views(found@) == views(before).push(line@));
            assert(rest.skip(at - from + 1) == s@.skip(at + 1));
            assert(views(found@) + lines(s@.skip(at + 1)) == views(before) + (seq![line@] + lines(
                s@.skip(at + 1),
            )));
            from = at + 1;
        }
    }
    assert(lines(s@.skip(from as int)) == Seq::<Seq<char>>::empty());
    assert(views(found@) + Seq::<Seq<char>>::empty() == views(found@));
    found
}

/// Whether `prefix` starts `s`.
pub fn has_prefix(s: &str, prefix: &str) -> (r: bool)
    ensures
        r == starts_with(s@, prefix@),
{
    let n = prefix.unicode_len();
    if n > s.unicode_len() {
        return false;
    }
    assert(s@.subrange(0, n as int) == s@.take(n as int));
    same(s.substring_char(0, n), prefix)
}

/// Whether `part` stands somewhere in `s`.
pub open spec fn holds(s: Seq<char>, part: Seq<char>) -> bool {
    exists|i: int| 0 <= i <= s.len() && #[trigger] starts_with(s.skip(i), part)
}

/// Whether `part` stands somewhere in `s`.
pub fn has_part(s: &str, part: &str) -> (r: bool)
    ensures
        r == holds(s@, part@),
{
    let n = s.unicode_len();
    let mut i: usize = 0;
    loop
        invariant
            n == s@.len(),
            i <= n,
            forall|j: int| 0 <= j < i ==> !#[trigger] starts_with(s@.skip(j), part@),
        decreases n - i,
    {
        assert(s@.subrange(i as int, n as int) =~= s@.skip(i as int));
        if has_prefix(s.substring_char(i, n), part) {
            return true;
        }
        if i == n {
            return false;
        }
        i = i + 1;
    }
}

/// What follows `prefix` in `s`, if `prefix` starts it.
pub fn strip_prefix(s: &str, prefix: &str) -> (r: Option<String>)
    ensures
        match r {
            Some(rest) => starts_with(s@, prefix@) && rest@ == s@.skip(prefix@.len() as int),
            None => !starts_with(s@, prefix@),
        },
{
    if has_prefix(s, prefix) {
        let n = prefix.unicode_len();
        let m = s.unicode_len();
        assert(s@.subrange(n as int, m as int) == s@.skip(n as int));
        Some(s.substring_char(n, m).to_owned())
    } else {
        None
    }
}

/// Whether `s` is one of `items`.
pub fn contains(items: &Vec<String>, s: &str) -> (r: bool)
    ensures
        r == views(items@).contains(s@),
{
    let mut i: usize = 0;
    while i < items.len()
        invariant
            i <= items@.len(),
            forall|j: int| 0 <= j < i ==> items@[j]@ != s@,
        decreases items@.len() - i,
    {
        if same(items[i].as_str(), s) {
            assert(views(items@)[i as int] == s@);
            return true;
        }
        i = i + 1;
    }
    assert forall|j: int| 0 <= j < views(items@).len() implies views(items@)[j] != s@ by {
        assert(views(items@)[j] == items@[j]@);
    }
    false
}

/// The items one after the other, with `separator` between each two.
pub fn join_with(items: &Vec<String>, separator: &str) -> (out: String)
    ensures
        out@ == joined(views(items@), separator@),
{
    let mut out = String::new();
    let mut i: usize = 0;
    while i < items.len()
        invariant
            i <= items@.len(),
            out@ == joined(views(items@).take(i as int), separator@),
        decreases items@.len() - i,
    {
        let ghost next = views(items@).take(i + 1);
        assert(next.drop_last() == views(items@).take(i as int));
        assert(next.last() == items@[i as int]@);
        if i > 0 {
            out.append(separator);
            out.append(items[i].as_str());
        } else {
            out.append(items[i].as_str());
            assert(out@ == items@[0]@);
        }
        i = i + 1;
    }
    assert(views(items@).take(items@.len() as int) == views(items@));
    out
}

/// Splitting takes nothing away: no piece holds the separator, and the pieces
/// with the separator between them are the text.
pub proof fn pieces_put_together_are_the_text(s: Seq<char>, c: char)
    ensures
        split(s, c).len() > 0,
        forall|i: int| 0 <= i < split(s, c).len() ==> !(#[trigger] split(s, c)[i]).contains(c),
        joined(split(s, c), seq![c]) == s,
    decreases s.len(),
{
    lemma_cut(s, c);
    let at = cut(s, c);
    let pieces = split(s, c);
    if at < s.len() {
        let rest = s.skip(at + 1);
        let piece = s.take(at);
        pieces_put_together_are_the_text(rest, c);
        assert(pieces.skip(1) =~= split(rest, c));
        lemma_joined_first(pieces, seq![c]);
        assert(piece + seq![c] + rest =~= s);
        assert forall|i: int| 0 <= i < pieces.len() implies !(#[trigger] pieces[i]).contains(c) by {
            if i > 0 {
                assert(pieces[i] == split(rest, c)[i - 1]);
            }
        }
    } else {
        assert(!s.contains(c));
    }
}

/// A text starts with another exactly when it is that and something behind it.
pub proof fn a_start_is_followed_by_the_rest(s: Seq<char>, prefix: Seq<char>)
    ensures
        starts_with(s, prefix) <==> exists|rest: Seq<char>| #[trigger] (prefix + rest) == s,
{
    if starts_with(s, prefix) {
        let rest = s.skip(prefix.len() as int);
        assert(prefix + rest =~= s);
    }
    if exists|rest: Seq<char>| #[trigger] (prefix + rest) == s {
        let rest = choose|rest: Seq<char>| #[trigger] (prefix + rest) == s;
        assert(s.take(prefix.len() as int) =~= prefix);
    }
}

/// A text that stands between two others stands in the whole.
pub proof fn a_part_stands_between(before: Seq<char>, part: Seq<char>, after: Seq<char>)
    ensures
        holds(before + part + after, part),
{
    let s = before + part + after;
    assert(s.skip(before.len() as int).take(part.len() as int) =~= part);
    assert(starts_with(s.skip(before.len() as int), part));
}

/// What is read as a line ends at a line feed, with or without a carriage
/// return before it, and holds no line feed; the last line may lack its end.
pub proof fn a_line_ends_with_or_without_a_return(line: Seq<char>, rest: Seq<char>)
    requires
        !line.contains('\n'),
    ensures
        lines(line.push('\r').push('\n') + rest) == seq![line] + lines(rest),
        line.len() > 0 ==> lines(line) == seq![line],
        lines(Seq::empty()) == Seq::<Seq<char>>::empty(),
{
    let whole = line.push('\r');
    assert(!whole.contains('\n')) by {
        if whole.contains('\n') {
            let k = choose|k: int| 0 <= k < whole.len() && whole[k] == '\n';
            assert(line[k] == '\n');
        }
    }
    lemma_cut_after(whole, '\n', rest);
    assert(without_return(whole) =~= line);
    lemma_cut_none(line, '\n');
}

/// No line that is read holds the end of one.
pub proof fn no_line_holds_the_end_of_one(s: Seq<char>)
    ensures
        forall|i: int| 0 <= i < lines(s).len() ==> !(#[trigger] lines(s)[i]).contains('\n'),
    decreases s.len(),
{
    lemma_cut(s, '\n');
    let at = cut(s, '\n');
    if s.len() > 0 && at < s.len() {
        no_line_holds_the_end_of_one(s.skip(at + 1));
        let first = without_return(s.take(at));
        assert forall|i: int| 0 <= i < lines(s).len() implies !(
        #[trigger] lines(s)[i]).contains('\n') by {
            if i > 0 {
                assert(lines(s)[i] == lines(s.skip(at + 1))[i - 1]);
            } else if first.contains('\n') {
                let k = choose|k: int| 0 <= k < first.len() && first[k] == '\n';
                assert(s[k] == '\n');
            }
        }
    } else if s.len() > 0 {
        assert(!s.contains('\n'));
    }
}

} // verus!
