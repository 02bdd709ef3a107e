//! A stretch of a source file, as byte offsets into its text, and where its
//! lines and columns are.

use vstd::prelude::*;
use vstd::string::*;
use vstd::utf8::*;

use crate::text::{
    chars_of, cut, find_from, lemma_cut, lemma_cut_is, split, split_at_each, viewed, views,
};

verus! {

/// The bytes from `lo` to `hi` of a file that holds `source`.
pub struct Excerpt {
    pub file: String,
    pub source: String,
    pub lo: u32,
    pub hi: u32,
}

/// What an [`Excerpt`] is.
pub struct ExcerptView {
    pub file: Seq<char>,
    pub source: Seq<char>,
    pub lo: u32,
    pub hi: u32,
}

impl View for Excerpt {
    type V = ExcerptView;

    open spec fn view(&self) -> ExcerptView {
        ExcerptView { file: self.file@, source: self.source@, lo: self.lo, hi: self.hi }
    }
}

/// Whether the bytes from `lo` to `hi` are characters of `source`.
pub open spec fn span_fits(source: Seq<char>, lo: u32, hi: u32) -> bool {
    &&& lo <= hi
    &&& is_char_boundary(encode_utf8(source), lo as int)
    &&& is_char_boundary(encode_utf8(source), hi as int)
}

impl ExcerptView {
    /// Whether the excerpt lies in its source.
    pub open spec fn fits(self) -> bool {
        span_fits(self.source, self.lo, self.hi)
    }
}

/// The characters of `source` before the byte `at`.
pub open spec fn before_byte(source: Seq<char>, at: u32) -> Seq<char> {
    decode_utf8(encode_utf8(source).subrange(0, at as int))
}

/// How many lines end in `s`.
pub open spec fn line_ends(s: Seq<char>) -> nat
    decreases s.len(),
{
    if s.len() == 0 {
        0
    } else {
        line_ends(s.drop_last()) + if s.last() == '\n' {
            1nat
        } else {
            0nat
        }
    }
}

/// Where the last line of `s` starts.
pub open spec fn line_start(s: Seq<char>) -> int
    decreases s.len(),
{
    if s.len() == 0 || s.last() == '\n' {
        s.len() as int
    } else {
        line_start(s.drop_last())
    }
}

/// The line, counted from one, that the byte `at` is on.
pub open spec fn line_of(source: Seq<char>, at: u32) -> nat {
    line_ends(before_byte(source, at)) + 1
}

/// The column, in characters and counted from one, that the byte `at` is in.
pub open spec fn column_of(source: Seq<char>, at: u32) -> nat {
    let before = before_byte(source, at);
    (before.len() - line_start(before) + 1) as nat
}

/// The whole lines that the bytes from `lo` to `hi` are on.
pub open spec fn covered(source: Seq<char>, lo: u32, hi: u32) -> Seq<char> {
    let last = before_byte(source, hi).len() as int;
    source.subrange(
        line_start(before_byte(source, lo)),
        last + cut(source.skip(last), '\n'),
    )
}

/// One line of an excerpt, and the columns between which it is marked.
pub struct MarkedLine {
    pub text: String,
    pub start: u64,
    pub end: u64,
}

/// What a [`MarkedLine`] is.
pub struct MarkedLineView {
    pub text: Seq<char>,
    pub start: nat,
    pub end: nat,
}

impl View for MarkedLine {
    type V = MarkedLineView;

    open spec fn view(&self) -> MarkedLineView {
        MarkedLineView { text: self.text@, start: self.start as nat, end: self.end as nat }
    }
}

impl ExcerptView {
    /// The lines that the excerpt is on. The first is marked from its column
    /// on and the last up to its column.
    pub open spec fn marked_lines(self) -> Seq<MarkedLineView> {
        let lines = split(covered(self.source, self.lo, self.hi), '\n');
        Seq::new(
            lines.len(),
            |i: int|
                MarkedLineView {
                    text: lines[i],
                    start: if i == 0 {
                        column_of(self.source, self.lo)
                    } else {
                        1
                    },
                    end: if i + 1 == lines.len() {
                        column_of(self.source, self.hi)
                    } else {
                        lines[i].len() + 1
                    },
                },
        )
    }
}

/// Text put together has its bytes put together.
proof fn lemma_encode_together(a: Seq<char>, b: Seq<char>)
    ensures
        encode_utf8(a + b) == encode_utf8(a) + encode_utf8(b),
    decreases a.len(),
{
    if a.len() == 0 {
        assert(a + b =~= b);
        assert(encode_utf8(a) + encode_utf8(b) =~= encode_utf8(b));
    } else {
        lemma_encode_together(a.drop_first(), b);
        assert((a + b).drop_first() =~= a.drop_first() + b);
        assert(encode_utf8(a + b) =~= encode_utf8(a) + encode_utf8(b));
    }
}

/// A character has at least one byte.
proof fn lemma_bytes_of_chars(s: Seq<char>)
    ensures
        encode_utf8(s).len() >= s.len(),
    decreases s.len(),
{
    if s.len() > 0 {
        lemma_bytes_of_chars(s.drop_first());
    }
}

/// What stands before a byte starts the text, and has as many bytes.
proof fn lemma_before_byte(source: Seq<char>, at: u32)
    requires
        is_char_boundary(encode_utf8(source), at as int),
    ensures
        before_byte(source, at).len() <= source.len(),
        before_byte(source, at).len() <= at,
        before_byte(source, at) == source.take(before_byte(source, at).len() as int),
        encode_utf8(before_byte(source, at)).len() == at,
{
    let bytes = encode_utf8(source);
    encode_utf8_valid_utf8(source);
    lemma_boundary_in_range(bytes, at as int);
    valid_utf8_split(bytes, at as int);
    decode_utf8_split(bytes, at as int);
    encode_utf8_decode_utf8(source);
    let head = bytes.subrange(0, at as int);
    decode_utf8_encode_utf8(head);
    lemma_bytes_of_chars(before_byte(source, at));
    assert(source =~= decode_utf8(head) + decode_utf8(bytes.subrange(at as int, bytes.len() as int)));
    assert(before_byte(source, at) =~= source.take(before_byte(source, at).len() as int));
}

proof fn lemma_boundary_in_range(bytes: Seq<u8>, index: int)
    requires
        valid_utf8(bytes),
        is_char_boundary(bytes, index),
    ensures
        0 <= index <= bytes.len(),
{
    if index != 0 {
        assert(!(index < 0 || bytes.len() < index));
    }
}

/// What stands before a later byte is at least as long.
proof fn lemma_before_grows(source: Seq<char>, lo: u32, hi: u32)
    requires
        span_fits(source, lo, hi),
    ensures
        before_byte(source, lo).len() <= before_byte(source, hi).len(),
{
    lemma_before_byte(source, lo);
    lemma_before_byte(source, hi);
    let a = before_byte(source, lo);
    let b = before_byte(source, hi);
    if b.len() < a.len() {
        let rest = a.skip(b.len() as int);
        assert(a =~= b + rest);
        lemma_encode_together(b, rest);
        lemma_bytes_of_chars(rest);
    }
}

proof fn lemma_line_start(s: Seq<char>)
    ensures
        0 <= line_start(s) <= s.len(),
        line_ends(s) <= s.len(),
    decreases s.len(),
{
    if s.len() > 0 {
        lemma_line_start(s.drop_last());
    }
}

/// A piece that is not the last is shorter than the whole.
proof fn lemma_inner_piece(s: Seq<char>, c: char, i: int)
    requires
        0 <= i < split(s, c).len() - 1,
    ensures
        split(s, c)[i].len() < s.len(),
    decreases s.len(),
{
    lemma_cut(s, c);
    let at = cut(s, c);
    if at < s.len() && i > 0 {
        lemma_inner_piece(s.skip(at + 1), c, i - 1);
    }
}

/// The characters before the byte `at`.
fn chars_before(source: &str, at: u32) -> (chars: Vec<char>)
    requires
        is_char_boundary(encode_utf8(source@), at as int),
    ensures
        chars@ == before_byte(source@, at),
        chars@.len() <= at,
        chars@.len() <= source@.len(),
{
    proof {
        lemma_before_byte(source@, at);
    }
    let (head, _) = source.split_at(at as usize);
    proof {
        encode_utf8_decode_utf8(head@);
    }
    chars_of(head)
}

fn line_ends_in(chars: &Vec<char>) -> (n: usize)
    ensures
        n == line_ends(chars@),
        n <= chars@.len(),
{
    let mut n: usize = 0;
    let mut i: usize = 0;
    while i < chars.len()
        invariant
            i <= chars@.len(),
            n <= i,
            n == line_ends(chars@.take(i as int)),
        decreases chars@.len() - i,
    {
        assert(chars@.take(i + 1).drop_last() =~= chars@.take(i as int));
        if chars[i] == '\n' {
            n = n + 1;
        }
        i = i + 1;
    }
    assert(chars@.take(i as int) =~= chars@);
    n
}

fn line_start_in(chars: &Vec<char>) -> (at: usize)
    ensures
        at == line_start(chars@),
        at <= chars@.len(),
{
    let mut at: usize = chars.len();
    assert(chars@.take(at as int) =~= chars@);
    while at > 0 && chars[at - 1] != '\n'
        invariant
            at <= chars@.len(),
            line_start(chars@) == line_start(chars@.take(at as int)),
        decreases at,
    {
        assert(chars@.take(at as int).drop_last() =~= chars@.take(at - 1));
        at = at - 1;
    }
    at
}

/// Whether the bytes from `lo` to `hi` are characters of `source`.
pub fn span_is_in(source: &str, lo: u32, hi: u32) -> (r: bool)
    ensures
        r == span_fits(source@, lo, hi),
{
    lo <= hi && source.is_char_boundary(lo as usize) && source.is_char_boundary(hi as usize)
}

impl Excerpt {
    pub fn copy(&self) -> (excerpt: Excerpt)
        ensures
            excerpt@ == self@,
    {
        Excerpt {
            file: self.file.clone(),
            source: self.source.clone(),
            lo: self.lo,
            hi: self.hi,
        }
    }

    /// The line that a byte of the source is on.
    pub fn line(&self, at: u32) -> (line: u64)
        requires
            is_char_boundary(encode_utf8(self.source@), at as int),
        ensures
            line == line_of(self.source@, at),
    {
        let before = chars_before(self.source.as_str(), at);
        line_ends_in(&before) as u64 + 1
    }

    /// The column that a byte of the source is in.
    pub fn column(&self, at: u32) -> (column: u64)
        requires
            is_char_boundary(encode_utf8(self.source@), at as int),
        ensures
            column == column_of(self.source@, at),
    {
        let before = chars_before(self.source.as_str(), at);
        let start = line_start_in(&before);
        (before.len() - start) as u64 + 1
    }

    /// The lines that the excerpt is on.
    pub fn marked_lines(&self) -> (lines: Vec<MarkedLine>)
        requires
            self@.fits(),
        ensures
            viewed(lines@) == self@.marked_lines(),
    {
        let ghost want = self@.marked_lines();
        let source = self.source.as_str();
        proof {
            lemma_before_grows(source@, self.lo, self.hi);
            lemma_before_byte(source@, self.hi);
        }
        let head = chars_before(source, self.lo);
        let first = line_start_in(&head);
        let last = chars_before(source, self.hi).len();
        let all = chars_of(source);
        proof {
            lemma_cut(all@.skip(last as int), '\n');
        }
        let end = find_from(&all, last, '\n');
        let text = source.substring_char(first, end).to_owned();
        let pieces = split_at_each(text.as_str(), '\n');
        let n = pieces.len();
        let start = self.column(self.lo);
        let stop = self.column(self.hi);
        let mut lines: Vec<MarkedLine> = Vec::new();
        let mut i: usize = 0;
        assert(viewed(lines@) =~= want.take(0));
        while i < n
            invariant
                n == pieces@.len(),
                i <= n,
                text@ == covered(self@.source, self@.lo, self@.hi),
                text@.len() <= usize::MAX,
                views(pieces@) == split(text@, '\n'),
                want == self@.marked_lines(),
                self@.fits(),
                start == column_of(self@.source, self@.lo),
                stop == column_of(self@.source, self@.hi),
                viewed(lines@) == want.take(i as int),
            decreases n - i,
        {
            let ghost before = viewed(lines@);
            assert(views(pieces@)[i as int] == pieces@[i as int]@);
            let end: u64 = if i + 1 == n {
                stop
            } else {
                proof {
                    lemma_inner_piece(text@, '\n', i as int);
                }
                pieces[i].as_str().unicode_len() as u64 + 1
            };
            let line = MarkedLine {
                text: pieces[i].clone(),
                start: if i == 0 {
                    start
                } else {
                    1
                },
                end,
            };
            assert(line@ == want[i as int]);
            lines.push(line);
            assert(viewed(lines@) =~= before.push(line@));
            assert(want.take(i + 1) =~= want.take(i as int).push(line@));
            i = i + 1;
        }
        assert(want.take(i as int) =~= want);
        lines
    }
}

/// What stands before a byte is the text that takes up the bytes before it.
pub proof fn what_stands_before_a_byte(a: Seq<char>, b: Seq<char>, at: u32)
    requires
        encode_utf8(a).len() == at,
        is_char_boundary(encode_utf8(a + b), at as int),
    ensures
        before_byte(a + b, at) == a,
{
    let source = a + b;
    lemma_before_byte(source, at);
    let head = before_byte(source, at);
    let k = head.len() as int;
    if k < a.len() {
        assert(a =~= head + a.skip(k));
        lemma_encode_together(head, a.skip(k));
        lemma_bytes_of_chars(a.skip(k));
    } else {
        assert(head =~= a + head.skip(a.len() as int));
        lemma_encode_together(a, head.skip(a.len() as int));
        lemma_bytes_of_chars(head.skip(a.len() as int));
        assert(head =~= a);
    }
}

proof fn lemma_line_ends(s: Seq<char>)
    ensures
        line_ends(s) == s.filter(|c: char| c == '\n').len(),
    decreases s.len(),
{
    reveal(Seq::filter);
    if s.len() > 0 {
        lemma_line_ends(s.drop_last());
    }
}

proof fn lemma_line_starts_behind(head: Seq<char>, line: Seq<char>)
    requires
        head.len() == 0 || head.last() == '\n',
        !line.contains('\n'),
    ensures
        line_start(head + line) == head.len(),
    decreases line.len(),
{
    let s = head + line;
    if line.len() > 0 {
        assert(line.contains(line[line.len() - 1]));
        let less = line.drop_last();
        assert(!less.contains('\n')) by {
            if less.contains('\n') {
                let k = choose|k: int| 0 <= k < less.len() && less[k] == '\n';
                assert(line[k] == '\n');
            }
        }
        lemma_line_starts_behind(head, less);
        assert(s.drop_last() =~= head + less);
    } else {
        assert(s =~= head);
    }
}

/// A place is on the line after as many as end before it, and in the column
/// after as many characters as stand before it on that line.
pub proof fn a_place_is_counted_by_what_stands_before_it(
    head: Seq<char>,
    line: Seq<char>,
    rest: Seq<char>,
    at: u32,
)
    requires
        head.len() == 0 || head.last() == '\n',
        !line.contains('\n'),
        encode_utf8(head + line).len() == at,
        is_char_boundary(encode_utf8(head + line + rest), at as int),
    ensures
        line_of(head + line + rest, at) == head.filter(|c: char| c == '\n').len() + 1,
        column_of(head + line + rest, at) == line.len() + 1,
{
    what_stands_before_a_byte(head + line, rest, at);
    lemma_line_starts_behind(head, line);
    lemma_line_ends(head);
    lemma_more_line_ends(head, line);
}

proof fn lemma_more_line_ends(head: Seq<char>, line: Seq<char>)
    requires
        !line.contains('\n'),
    ensures
        line_ends(head + line) == line_ends(head),
    decreases line.len(),
{
    if line.len() > 0 {
        assert(line.contains(line[line.len() - 1]));
        let less = line.drop_last();
        assert(!less.contains('\n')) by {
            if less.contains('\n') {
                let k = choose|k: int| 0 <= k < less.len() && less[k] == '\n';
                assert(line[k] == '\n');
            }
        }
        lemma_more_line_ends(head, less);
        assert((head + line).drop_last() =~= head + less);
    } else {
        assert(head + line =~= head);
    }
}

/// The lines of an excerpt are the whole lines that it is on: what stands
/// before it on its first line, the excerpt itself, and what stands behind it
/// on its last line, taken apart at the ends of the lines. The first is marked
/// from where the excerpt starts, the last up to where it ends, and every
/// other whole.
pub proof fn an_excerpt_is_shown_in_whole_lines(
    excerpt: ExcerptView,
    head: Seq<char>,
    before: Seq<char>,
    marked: Seq<char>,
    after: Seq<char>,
    tail: Seq<char>,
)
    requires
        excerpt.fits(),
        excerpt.source == head + before + marked + after + tail,
        head.len() == 0 || head.last() == '\n',
        tail.len() == 0 || tail[0] == '\n',
        !before.contains('\n'),
        !after.contains('\n'),
        encode_utf8(head + before).len() == excerpt.lo,
        encode_utf8(head + before + marked).len() == excerpt.hi,
    ensures
        ({
            let pieces = split(before + marked + after, '\n');
            let lines = excerpt.marked_lines();
            &&& lines.len() == pieces.len()
            &&& forall|i: int| 0 <= i < lines.len() ==> (#[trigger] lines[i]).text == pieces[i]
            &&& lines[0].start == before.len() + 1
            &&& lines[lines.len() - 1].end == column_of(excerpt.source, excerpt.hi)
            &&& forall|i: int| 0 < i < lines.len() ==> (#[trigger] lines[i]).start == 1
            &&& forall|i: int|
                0 <= i < lines.len() - 1 ==> (#[trigger] lines[i]).end == pieces[i].len() + 1
        }),
{
    let source = excerpt.source;
    let first = head + before;
    let second = head + before + marked;
    assert(source =~= first + (marked + after + tail));
    assert(source =~= second + (after + tail));
    what_stands_before_a_byte(first, marked + after + tail, excerpt.lo);
    what_stands_before_a_byte(second, after + tail, excerpt.hi);
    lemma_line_starts_behind(head, before);
    assert(source.skip(second.len() as int) =~= after + tail);
    let rest = after + tail;
    assert forall|j: int| 0 <= j < after.len() implies rest[j] != '\n' by {
        assert(after.contains(after[j]));
    }
    lemma_cut_is(rest, '\n', after.len() as int);
    assert(covered(source, excerpt.lo, excerpt.hi) =~= before + marked + after);
    let pieces = split(before + marked + after, '\n');
    assert(pieces.len() > 0);
}

/// A text is split into one piece more than lines end in it.
pub proof fn there_is_a_piece_more_than_ends_of_lines(s: Seq<char>)
    ensures
        split(s, '\n').len() == line_ends(s) + 1,
    decreases s.len(),
{
    lemma_cut(s, '\n');
    let at = cut(s, '\n');
    if at < s.len() {
        let rest = s.skip(at + 1);
        there_is_a_piece_more_than_ends_of_lines(rest);
        lemma_line_ends_add(s.take(at + 1), rest);
        assert(s.take(at + 1) + rest =~= s);
        assert(s.take(at + 1).drop_last() =~= s.take(at));
        assert(!s.take(at).contains('\n'));
        lemma_more_line_ends(Seq::empty(), s.take(at));
        assert(Seq::<char>::empty() + s.take(at) =~= s.take(at));
    } else {
        assert(!s.contains('\n'));
        lemma_more_line_ends(Seq::empty(), s);
        assert(Seq::<char>::empty() + s =~= s);
    }
}

proof fn lemma_line_ends_add(a: Seq<char>, b: Seq<char>)
    ensures
        line_ends(a + b) == line_ends(a) + line_ends(b),
    decreases b.len(),
{
    if b.len() > 0 {
        lemma_line_ends_add(a, b.drop_last());
        assert((a + b).drop_last() =~= a + b.drop_last());
    } else {
        assert(a + b =~= a);
    }
}

} // verus!
