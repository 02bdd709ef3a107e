//! What the records and messages have from JSON.

use serde_json::{from_value, Value};

use vstd::prelude::*;
use vstd::string::*;

use crate::number::{decimal, decimal_is_digits, decimal_of, digit, hexadecimal, is_digit};
use crate::records::{note_views, Note, NoteView};
use crate::text::{a_part_stands_between, concat, holds, join_with, joined, starts_with, views};

verus! {

/// No tab and no end of a line: what may stand as one field of one line.
pub open spec fn one_field(s: Seq<char>) -> bool {
    forall|i: int| 0 <= i < s.len() ==> s[i] != '\t' && s[i] != '\n' && s[i] != '\r'
}

/// How a character stands in a JSON string.
pub open spec fn escaped(c: char) -> Seq<char> {
    if c == '"' || c == '\\' {
        seq!['\\', c]
    } else if c == '\u{8}' {
        seq!['\\', 'b']
    } else if c == '\t' {
        seq!['\\', 't']
    } else if c == '\n' {
        seq!['\\', 'n']
    } else if c == '\u{c}' {
        seq!['\\', 'f']
    } else if c == '\r' {
        seq!['\\', 'r']
    } else if ' ' > c {
        seq!['\\', 'u'] + hexadecimal(c as nat, 4)
    } else {
        seq![c]
    }
}

/// The JSON text of a string.
pub open spec fn quoted(s: Seq<char>) -> Seq<char> {
    "\""@ + concat(s.map_values(|c: char| escaped(c))) + "\""@
}

/// `serde_json::to_string` of a string. The text is the string in quotation
/// marks, in which a quotation mark, a backslash and a control character of
/// ASCII stand as their escapes and every other character as itself.
#[verifier::external_body]
pub(crate) fn quote(s: &str) -> (text: String)
    ensures
        text@ == quoted(s@),
{
    serde_json::to_string(s).unwrap_or_default()
}

proof fn lemma_escaped_is_one_field(c: char)
    ensures
        one_field(escaped(c)),
{
    if ' ' > c {
        let n = c as nat;
        reveal_with_fuel(hexadecimal, 5);
        assert(n / 16 < 2 && n / 16 / 16 == 0 && n / 16 / 16 / 16 == 0);
        assert(hexadecimal(n, 4) =~= seq!['0', '0', digit(n / 16), digit(n % 16)]);
    }
}

/// A JSON string is one field, whatever it holds.
pub proof fn lemma_quoted_is_one_field(s: Seq<char>)
    ensures
        one_field(quoted(s)),
{
    reveal_strlit("\"");
    lemma_escapes_are_one_field(s);
}

proof fn lemma_escapes_are_one_field(s: Seq<char>)
    ensures
        one_field(concat(s.map_values(|c: char| escaped(c)))),
    decreases s.len(),
{
    let pieces = s.map_values(|c: char| escaped(c));
    if s.len() > 0 {
        lemma_escapes_are_one_field(s.drop_last());
        assert(pieces.drop_last() =~= s.drop_last().map_values(|c: char| escaped(c)));
        lemma_escaped_is_one_field(s.last());
        assert(pieces.last() == escaped(s.last()));
    }
}

/// The JSON text of a place: its file and where in it that starts and ends.
pub open spec fn place_json(at: Option<(Seq<char>, u32, u32)>) -> Seq<char> {
    match at {
        Some((file, lo, hi)) => array(
            seq![quoted(file), decimal(lo as nat), decimal(hi as nat)],
        ),
        None => "null"@,
    }
}

/// The JSON text of a note.
pub open spec fn note_json(note: NoteView) -> Seq<char> {
    object(
        seq![
            field(
                "help"@,
                if note.help {
                    "true"@
                } else {
                    "false"@
                },
            ),
            field("message"@, quoted(note.message)),
            field("at"@, place_json(note.at)),
        ],
    )
}

/// The JSON text of notes.
pub open spec fn notes_json(notes: Seq<NoteView>) -> Seq<char> {
    array(notes.map_values(|n: NoteView| note_json(n)))
}

proof fn lemma_place_is_one_field(at: Option<(Seq<char>, u32, u32)>)
    ensures
        one_field(place_json(at)),
{
    match at {
        Some((file, lo, hi)) => {
            lemma_quoted_is_one_field(file);
            lemma_decimal_is_one_field(lo as nat);
            lemma_decimal_is_one_field(hi as nat);
            let items = seq![quoted(file), decimal(lo as nat), decimal(hi as nat)];
            assert(all_one_field(items));
            lemma_array_is_one_field(items);
        },
        None => {
            reveal_strlit("null");
        },
    }
}

proof fn lemma_note_is_one_field(note: NoteView)
    ensures
        one_field(note_json(note)),
{
    reveal_strlit("help");
    reveal_strlit("true");
    reveal_strlit("false");
    reveal_strlit("message");
    reveal_strlit("at");
    let help = if note.help {
        "true"@
    } else {
        "false"@
    };
    lemma_quoted_is_one_field(note.message);
    lemma_place_is_one_field(note.at);
    lemma_field_is_one_field("help"@, help);
    lemma_field_is_one_field("message"@, quoted(note.message));
    lemma_field_is_one_field("at"@, place_json(note.at));
    let fields = seq![
        field("help"@, help),
        field("message"@, quoted(note.message)),
        field("at"@, place_json(note.at)),
    ];
    assert(all_one_field(fields));
    lemma_object_is_one_field(fields);
}

/// The JSON text of notes is one field, whatever they say, and ends in a
/// bracket.
pub proof fn lemma_notes_are_one_field(notes: Seq<NoteView>)
    ensures
        one_field(notes_json(notes)),
        notes_json(notes).len() > 0,
        notes_json(notes).last() == ']',
{
    let items = notes.map_values(|n: NoteView| note_json(n));
    assert forall|i: int| 0 <= i < items.len() implies one_field(#[trigger] items[i]) by {
        lemma_note_is_one_field(notes[i]);
    }
    lemma_array_is_one_field(items);
    reveal_strlit("]");
}

fn place_text(at: &Option<(String, u32, u32)>) -> (text: String)
    ensures
        text@ == place_json(
            match *at {
                Some((file, lo, hi)) => Some((file@, lo, hi)),
                None => None,
            },
        ),
{
    match at {
        Some((file, lo, hi)) => {
            let mut items: Vec<String> = Vec::new();
            items.push(quote(file.as_str()));
            items.push(decimal_of(*lo as u64));
            items.push(decimal_of(*hi as u64));
            assert(views(items@) =~= seq![
                quoted(file@),
                decimal(*lo as nat),
                decimal(*hi as nat),
            ]);
            array_text(&items)
        },
        None => "null".to_owned(),
    }
}

fn note_text(note: &Note) -> (text: String)
    ensures
        text@ == note_json(note@),
{
    let help = if note.help {
        "true"
    } else {
        "false"
    };
    let message = quote(note.message.as_str());
    let at = place_text(&note.at);
    let mut fields: Vec<String> = Vec::new();
    fields.push(field_text("help", help));
    fields.push(field_text("message", message.as_str()));
    fields.push(field_text("at", at.as_str()));
    assert(views(fields@) =~= seq![
        field("help"@, help@),
        field("message"@, quoted(note@.message)),
        field("at"@, place_json(note@.at)),
    ]);
    object_text(&fields)
}

/// The JSON text of notes.
pub fn notes_text(notes: &Vec<Note>) -> (text: String)
    ensures
        text@ == notes_json(note_views(notes@)),
{
    let ghost want = note_views(notes@).map_values(|n: NoteView| note_json(n));
    let mut items: Vec<String> = Vec::new();
    let mut i: usize = 0;
    assert(views(items@) =~= want.take(0));
    while i < notes.len()
        invariant
            i <= notes@.len(),
            want == note_views(notes@).map_values(|n: NoteView| note_json(n)),
            views(items@) == want.take(i as int),
        decreases notes@.len() - i,
    {
        let ghost before = views(items@);
        let item = note_text(&notes[i]);
        items.push(item);
        assert(want[i as int] == item@);
        assert(views(items@) =~= before.push(item@));
        assert(want.take(i + 1) =~= want.take(i as int).push(item@));
        i = i + 1;
    }
    assert(want.take(i as int) =~= want);
    array_text(&items)
}

/// The notes that `serde_json::from_str` reads from a text, if it reads any.
pub uninterp spec fn json_notes(text: Seq<char>) -> Option<Seq<NoteView>>;

/// `serde_json::from_str` of a list of notes, each an object with the fields
/// of a note or an array with their values in order; a missing `at` is none,
/// of a field that is given twice the last counts, and any other field is
/// passed over if it is JSON with numbers that `serde_json` can hold. What
/// comes back is a function of the text, and from the JSON text of notes it is
/// those notes.
#[verifier::external_body]
pub(crate) fn notes_from_json(text: &str) -> (notes: Option<Vec<Note>>)
    ensures
        match notes {
            Some(notes) => json_notes(text@) == Some(note_views(notes@)),
            None => json_notes(text@) is None,
        },
        forall|written: Seq<NoteView>|
            text@ == #[trigger] notes_json(written) ==> (notes matches Some(notes) && note_views(
                notes@,
            ) == written),
{
    let values: Vec<Value> = serde_json::from_str(text).ok()?;
    values.into_iter().map(|value| match value {
        Value::Object(mut o) => Some(Note {
            help: from_value(o.remove("help")?).ok()?,
            message: from_value(o.remove("message")?).ok()?,
            at: from_value(o.remove("at").unwrap_or_default()).ok()?,
        }),
        list => from_value(list).ok().map(|(help, message, at)| Note { help, message, at }),
    }).collect()
}

/// A number is one field.
pub proof fn lemma_decimal_is_one_field(n: nat)
    ensures
        one_field(decimal(n)),
{
    decimal_is_digits(n);
    assert forall|i: int| 0 <= i < decimal(n).len() implies decimal(n)[i] != '\t' && decimal(n)[i]
        != '\n' && decimal(n)[i] != '\r' by {
        assert(is_digit(decimal(n)[i]));
    }
}

/// A field of an object: its name and the JSON text of its value.
pub open spec fn field(name: Seq<char>, value: Seq<char>) -> Seq<char> {
    "\""@ + name + "\":"@ + value
}

/// The compact JSON text of an object with these fields.
pub open spec fn object(fields: Seq<Seq<char>>) -> Seq<char> {
    "{"@ + joined(fields, ","@) + "}"@
}

/// The compact JSON text of an array with these items.
pub open spec fn array(items: Seq<Seq<char>>) -> Seq<char> {
    "["@ + joined(items, ","@) + "]"@
}

pub fn field_text(name: &str, value: &str) -> (text: String)
    ensures
        text@ == field(name@, value@),
        one_field(name@) && one_field(value@) ==> one_field(text@),
{
    proof {
        if one_field(name@) && one_field(value@) {
            lemma_field_is_one_field(name@, value@);
        }
    }
    "\"".to_owned().concat(name).concat("\":").concat(value)
}

proof fn lemma_field_is_one_field(name: Seq<char>, value: Seq<char>)
    requires
        one_field(name),
        one_field(value),
    ensures
        one_field(field(name, value)),
{
    reveal_strlit("\"");
    reveal_strlit("\":");
}

proof fn lemma_object_is_one_field(fields: Seq<Seq<char>>)
    requires
        all_one_field(fields),
    ensures
        one_field(object(fields)),
{
    reveal_strlit("{");
    reveal_strlit("}");
    reveal_strlit(",");
    lemma_joined_is_one_field(fields, ","@);
}

proof fn lemma_array_is_one_field(items: Seq<Seq<char>>)
    requires
        all_one_field(items),
    ensures
        one_field(array(items)),
{
    reveal_strlit("[");
    reveal_strlit("]");
    reveal_strlit(",");
    lemma_joined_is_one_field(items, ","@);
}

/// Pieces that keep to one field, joined by what does, keep to it.
proof fn lemma_joined_is_one_field(pieces: Seq<Seq<char>>, separator: Seq<char>)
    requires
        one_field(separator),
        forall|i: int| 0 <= i < pieces.len() ==> one_field(#[trigger] pieces[i]),
    ensures
        one_field(joined(pieces, separator)),
    decreases pieces.len(),
{
    if pieces.len() > 0 {
        let front = pieces.drop_last();
        assert forall|i: int| 0 <= i < front.len() implies one_field(#[trigger] front[i]) by {
            assert(front[i] == pieces[i]);
        }
        lemma_joined_is_one_field(front, separator);
        assert(one_field(pieces[pieces.len() - 1]));
    }
}

pub fn object_text(fields: &Vec<String>) -> (text: String)
    ensures
        text@ == object(views(fields@)),
        all_one_field(views(fields@)) ==> one_field(text@),
{
    let inner = join_with(fields, ",");
    proof {
        if all_one_field(views(fields@)) {
            lemma_object_is_one_field(views(fields@));
        }
    }
    "{".to_owned().concat(inner.as_str()).concat("}")
}

pub fn array_text(items: &Vec<String>) -> (text: String)
    ensures
        text@ == array(views(items@)),
        all_one_field(views(items@)) ==> one_field(text@),
{
    let inner = join_with(items, ",");
    proof {
        if all_one_field(views(items@)) {
            lemma_array_is_one_field(views(items@));
        }
    }
    "[".to_owned().concat(inner.as_str()).concat("]")
}

pub open spec fn all_one_field(pieces: Seq<Seq<char>>) -> bool {
    forall|i: int| 0 <= i < pieces.len() ==> one_field(#[trigger] pieces[i])
}

/// Each piece stands in what joins them, with the separator behind it unless
/// it is the last.
proof fn lemma_piece_is_held(pieces: Seq<Seq<char>>, separator: Seq<char>, i: int) -> (around: (
    Seq<char>,
    Seq<char>,
))
    requires
        0 <= i < pieces.len(),
    ensures
        joined(pieces, separator) == around.0 + pieces[i] + around.1,
        i < pieces.len() - 1 ==> starts_with(around.1, separator),
        i == pieces.len() - 1 ==> around.1.len() == 0,
    decreases pieces.len(),
{
    let nothing = Seq::<char>::empty();
    if pieces.len() == 1 {
        assert(joined(pieces, separator) =~= nothing + pieces[0] + nothing);
        (nothing, nothing)
    } else if i == pieces.len() - 1 {
        let before = joined(pieces.drop_last(), separator) + separator;
        assert(joined(pieces, separator) =~= before + pieces[i] + nothing);
        (before, nothing)
    } else {
        let (before, after) = lemma_piece_is_held(pieces.drop_last(), separator, i);
        let more = after + (separator + pieces.last());
        assert(joined(pieces, separator) =~= before + pieces[i] + more);
        if i < pieces.len() - 2 {
            assert(more.take(separator.len() as int) =~= after.take(separator.len() as int));
        } else {
            assert(more.take(separator.len() as int) =~= separator);
        }
        (before, more)
    }
}

/// A piece with what follows it, put between brackets with the others.
proof fn lemma_held_between(
    open: Seq<char>,
    pieces: Seq<Seq<char>>,
    close: Seq<char>,
    i: int,
)
    requires
        0 <= i < pieces.len(),
    ensures
        i < pieces.len() - 1 ==> holds(open + joined(pieces, ","@) + close, pieces[i] + ","@),
        i == pieces.len() - 1 ==> holds(open + joined(pieces, ","@) + close, pieces[i] + close),
{
    let (before, after) = lemma_piece_is_held(pieces, ","@, i);
    let whole = open + joined(pieces, ","@) + close;
    if i < pieces.len() - 1 {
        lemma_held_with_separator(open, before, pieces[i], ","@, after, close);
        assert(whole == open + (before + pieces[i] + after) + close);
    } else {
        let part = pieces[i] + close;
        assert(whole =~= (open + before) + part + Seq::<char>::empty());
        a_part_stands_between(open + before, part, Seq::empty());
    }
}

proof fn lemma_held_with_separator(
    open: Seq<char>,
    before: Seq<char>,
    piece: Seq<char>,
    separator: Seq<char>,
    after: Seq<char>,
    close: Seq<char>,
)
    requires
        starts_with(after, separator),
    ensures
        holds(open + (before + piece + after) + close, piece + separator),
{
    let rest = after.skip(separator.len() as int);
    assert(after =~= separator + rest);
    assert(open + (before + piece + after) + close =~= (open + before) + (piece + separator) + (rest
        + close));
    a_part_stands_between(open + before, piece + separator, rest + close);
}

/// An object has each of its fields, with a comma behind it or the end of the
/// object.
pub proof fn an_object_has_each_of_its_fields(fields: Seq<Seq<char>>, i: int)
    requires
        0 <= i < fields.len(),
    ensures
        i < fields.len() - 1 ==> holds(object(fields), fields[i] + ","@),
        i == fields.len() - 1 ==> holds(object(fields), fields[i] + "}"@),
{
    lemma_held_between("{"@, fields, "}"@, i);
}

/// An array has each of its items, with a comma behind it or the end of the
/// array.
pub proof fn an_array_has_each_of_its_items(items: Seq<Seq<char>>, i: int)
    requires
        0 <= i < items.len(),
    ensures
        i < items.len() - 1 ==> holds(array(items), items[i] + ","@),
        i == items.len() - 1 ==> holds(array(items), items[i] + "]"@),
{
    lemma_held_between("["@, items, "]"@, i);
}

} // verus!
