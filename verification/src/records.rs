//! The records each compilation of a member leaves for the run, named for its
//! [`Unit`]: the `.refs` text has one line per workspace item the compilation
//! uses, the `.defs` text has one line per `pub` item it defines, after a
//! first line that names the baseline section its findings belong to, and the
//! `.over` text is one `<section>\t<count>` line when the compilation has
//! findings over its baseline count, and empty otherwise.
//!
//! Items are keyed by crate name plus definition path, which reads the same
//! from every crate that depends on the one defining them. A crate's use of
//! its own items is keyed by [`position_key`] instead.

use std::hash::{DefaultHasher, Hasher};

use vstd::prelude::*;
use vstd::std_specs::hash::*;
use vstd::string::*;
use vstd::utf8::encode_utf8;

use crate::json::{
    json_notes, lemma_decimal_is_one_field, lemma_notes_are_one_field, notes_from_json, notes_json,
    notes_text,
};
use crate::number::{
    decimal, decimal_is_digits, decimal_of, decimal_reads_back, hexadecimal, hexadecimal_16,
    is_digit, parse_up_to, parsed_up_to,
};
use crate::paths::{
    a_file_lies_in_the_directory_it_is_joined_to, are_same, beside, beside_path, components,
    components_of, directory, file_name, is_absolute, join_path, joined_path, starts_at_root,
};
use crate::sets::TextSet;
use crate::text::{
    chars_of, concat, join_with, joined, lemma_concat_first, lemma_cut_after, lemma_lines_first,
    lemma_split_joined, lines, lines_of, same, split, split_at_each, split_once, starts_with,
    views,
};

verus! {

/// One line under a finding: a note, or a help, optionally pointing at the
/// source (`file`, `lo`, `hi`) like `Def`'s own position.
pub struct Note {
    pub help: bool,
    pub message: String,
    pub at: Option<(String, u32, u32)>,
}

/// What a [`Note`] says.
pub struct NoteView {
    pub help: bool,
    pub message: Seq<char>,
    pub at: Option<(Seq<char>, u32, u32)>,
}

impl View for Note {
    type V = NoteView;

    open spec fn view(&self) -> NoteView {
        NoteView {
            help: self.help,
            message: self.message@,
            at: match self.at {
                Some((file, lo, hi)) => Some((file@, lo, hi)),
                None => None,
            },
        }
    }
}

pub open spec fn note_views(notes: Seq<Note>) -> Seq<NoteView> {
    notes.map_values(|n: Note| n@)
}

/// One `pub` item, as its defining crate describes it.
pub struct Def {
    pub key: String,
    /// Source file as the compiler named it, relative to the workspace root
    /// for a member.
    pub file: String,
    /// The item's name, as byte offsets into `file`.
    pub lo: u32,
    pub hi: u32,
    /// "function", "struct", ...
    pub descr: String,
    /// `crate::module::Item`, for the message.
    pub path: String,
    /// Key of the trait or type the item belongs to, or empty: when that is
    /// reported, the item is not.
    pub parent: String,
    /// The lint's level at the item: `warn`, `deny`, `forbid` or `force-warn`.
    pub level: String,
    /// Where that level comes from.
    pub notes: Vec<Note>,
}

/// What a [`Def`] says.
pub struct DefView {
    pub key: Seq<char>,
    pub file: Seq<char>,
    pub lo: u32,
    pub hi: u32,
    pub descr: Seq<char>,
    pub path: Seq<char>,
    pub parent: Seq<char>,
    pub level: Seq<char>,
    pub notes: Seq<NoteView>,
}

impl View for Def {
    type V = DefView;

    open spec fn view(&self) -> DefView {
        DefView {
            key: self.key@,
            file: self.file@,
            lo: self.lo,
            hi: self.hi,
            descr: self.descr@,
            path: self.path@,
            parent: self.parent@,
            level: self.level@,
            notes: note_views(self.notes@),
        }
    }
}

pub open spec fn def_views(defs: Seq<Def>) -> Seq<DefView> {
    defs.map_values(|d: Def| d@)
}

/// Where the first `::` stands in `s`, or the length of `s`.
pub open spec fn first_colons(s: Seq<char>) -> int
    decreases s.len(),
{
    if s.len() == 0 || (s.len() >= 2 && s[0] == ':' && s[1] == ':') {
        0
    } else {
        1 + first_colons(s.skip(1))
    }
}

/// The crate that a key starts with.
pub open spec fn crate_of(key: Seq<char>) -> Seq<char> {
    key.take(first_colons(key))
}

/// The text of [`position_key`].
pub open spec fn position(krate: Seq<char>, file: Seq<char>, lo: nat) -> Seq<char> {
    krate + "@"@ + file + ":"@ + decimal(lo)
}

impl DefView {
    /// What a use of this item from its own crate is recorded as.
    pub open spec fn position(self) -> Seq<char> {
        position(crate_of(self.key), self.file, self.lo as nat)
    }
}

/// Whether `key` is a crate name and a path, with `::` between them.
pub open spec fn well_keyed(key: Seq<char>) -> bool {
    first_colons(key) < key.len() && !crate_of(key).contains('@')
}

/// A key starts with its crate and `::`, and so it is with every key that
/// starts with them.
pub proof fn lemma_crate_prefix(key: Seq<char>, other: Seq<char>)
    requires
        first_colons(key) < key.len(),
    ensures
        starts_with(key, crate_of(key) + seq![':', ':']),
        starts_with(other, crate_of(key) + seq![':', ':']) ==> crate_of(other) == crate_of(key)
            && first_colons(other) < other.len(),
    decreases key.len(),
{
    lemma_first_colons(key);
    lemma_first_colons(key.skip(1));
    let prefix = crate_of(key) + seq![':', ':'];
    let n = first_colons(key);
    if n == 0 {
        assert(prefix =~= seq![':', ':']);
        assert(key.take(2) =~= prefix);
        if starts_with(other, prefix) {
            assert(other[0] == other.take(2)[0] && other[1] == other.take(2)[1]);
            assert(other.take(0) =~= key.take(0));
        }
    } else {
        lemma_first_colons(other.skip(1));
        lemma_crate_prefix(key.skip(1), other.skip(1));
        let rest = crate_of(key.skip(1)) + seq![':', ':'];
        assert(prefix =~= seq![key[0]] + rest);
        assert(key.take(prefix.len() as int) =~= seq![key[0]] + key.skip(1).take(
            rest.len() as int,
        ));
        if starts_with(other, prefix) {
            assert(other[0] == other.take(prefix.len() as int)[0]);
            assert(other.skip(1).take(rest.len() as int) =~= other.take(
                prefix.len() as int,
            ).skip(1));
            assert(prefix.skip(1) =~= rest);
            assert(starts_with(other.skip(1), rest));
            if other[0] == ':' && other.len() >= 2 && other[1] == ':' {
                assert(key[0] == ':');
                assert(other[1] == other.take(prefix.len() as int)[1]);
                assert(key[1] == key.take(prefix.len() as int)[1]);
            }
            assert(crate_of(other) =~= seq![other[0]] + crate_of(other.skip(1)));
            assert(crate_of(key) =~= seq![key[0]] + crate_of(key.skip(1)));
        }
    }
}

proof fn lemma_first_colons(s: Seq<char>)
    ensures
        0 <= first_colons(s) <= s.len(),
    decreases s.len(),
{
    if s.len() > 0 {
        lemma_first_colons(s.skip(1));
    }
}

/// The crate that a key starts with.
pub fn crate_name_of(key: &str) -> (krate: String)
    ensures
        krate@ == crate_of(key@),
{
    let chars = chars_of(key);
    let mut at: usize = 0;
    assert(key@.skip(0) == key@);
    while at < chars.len() && !(chars.len() - at >= 2 && chars[at] == ':' && chars[at + 1] == ':')
        invariant
            chars@ == key@,
            at <= key@.len(),
            first_colons(key@) == at + first_colons(key@.skip(at as int)),
        decreases key@.len() - at,
    {
        assert(key@.skip(at as int).skip(1) == key@.skip(at + 1));
        at = at + 1;
    }
    assert(key@.subrange(0, at as int) == key@.take(at as int));
    key.substring_char(0, at).to_owned()
}

/// How a crate records a use of one of its own items: the crate, as it starts
/// the item's key, and where the item's name is. The definition path will not
/// do: a crate is compiled once on its own and once as a test harness, and the
/// two number its `impl` blocks apart. The name is at the same place in the
/// same file in both.
pub fn position_key(krate: &str, file: &str, lo: u32) -> (key: String)
    ensures
        key@ == position(krate@, file@, lo as nat),
{
    let place = decimal_of(lo as u64);
    krate.to_owned().concat("@").concat(file).concat(":").concat(place.as_str())
}

impl Def {
    /// What a use of this item from its own crate is recorded as.
    pub fn position_key(&self) -> (key: String)
        ensures
            key@ == self@.position(),
    {
        let krate = crate_name_of(self.key.as_str());
        position_key(krate.as_str(), self.file.as_str(), self.lo)
    }
}

/// A unit's items and the baseline section a finding among them counts in.
pub struct Defs {
    pub section: String,
    pub defs: Vec<Def>,
}

/// What a [`Defs`] says.
pub struct DefsView {
    pub section: Seq<char>,
    pub defs: Seq<DefView>,
}

impl View for Defs {
    type V = DefsView;

    open spec fn view(&self) -> DefsView {
        DefsView { section: self.section@, defs: def_views(self.defs@) }
    }
}

/// One compilation cargo runs: a target's crate root, whether it is built as
/// a test harness, and cargo's `-C extra-filename` for that unit. Two compiles
/// of one crate root, for two platforms say, differ in the last.
pub struct Unit {
    pub src: String,
    /// The canonical path of `src`, so that a relative and an absolute way to
    /// name it agree; `src` itself where that cannot be told.
    pub canonical: String,
    pub test: bool,
    pub extra_filename: String,
}

/// What a [`Unit`] is.
pub struct UnitView {
    pub src: Seq<char>,
    pub canonical: Seq<char>,
    pub test: bool,
    pub extra_filename: Seq<char>,
}

impl View for Unit {
    type V = UnitView;

    open spec fn view(&self) -> UnitView {
        UnitView {
            src: self.src@,
            canonical: self.canonical@,
            test: self.test,
            extra_filename: self.extra_filename@,
        }
    }
}

/// One byte for yes or no.
pub open spec fn flag(yes: bool) -> Seq<u8> {
    seq![if yes { 1u8 } else { 0u8 }]
}

/// What texts hand to a hasher: each its bytes, and then a byte that UTF-8
/// does not have.
pub open spec fn texts_hashed(texts: Seq<Seq<char>>) -> Seq<Seq<u8>>
    decreases texts.len(),
{
    if texts.len() == 0 {
        Seq::empty()
    } else {
        texts_hashed(texts.drop_last()) + seq![encode_utf8(texts.last()), seq![0xffu8]]
    }
}

impl UnitView {
    /// What the unit hands to the hasher, one write after the other. Of a path
    /// that is where it starts and its components.
    pub open spec fn hashed(self) -> Seq<Seq<u8>> {
        texts_hashed(components(self.canonical)) + seq![
            flag(is_absolute(self.canonical)),
            flag(self.test),
            encode_utf8(self.extra_filename),
            seq![0xffu8],
        ]
    }

    /// The stem the files of this unit are named with.
    pub open spec fn stem(self) -> Seq<char> {
        hexadecimal(DefaultHasher::spec_finish(self.hashed()) as nat, 16)
    }

    /// The same unit built without a test harness.
    pub open spec fn plain(self) -> UnitView {
        UnitView { test: false, ..self }
    }

    pub open spec fn defs(self, dir: Seq<char>) -> Seq<char> {
        joined_path(dir, self.stem() + ".defs"@)
    }

    pub open spec fn refs(self, dir: Seq<char>) -> Seq<char> {
        joined_path(dir, self.stem() + ".refs"@)
    }

    pub open spec fn over(self, dir: Seq<char>) -> Seq<char> {
        joined_path(beside(dir, "over_baseline_counts"@), self.stem() + ".over"@)
    }
}

impl Unit {
    /// The stem the files of this unit are named with.
    pub fn stem(&self) -> (stem: String)
        ensures
            stem@ == self@.stem(),
    {
        let mut hasher = DefaultHasher::new();
        let end: [u8; 1] = [0xff];
        let absolute: [u8; 1] = [if starts_at_root(self.canonical.as_str()) { 1 } else { 0 }];
        let test: [u8; 1] = [if self.test { 1 } else { 0 }];
        assert(end@ =~= seq![0xffu8]);
        assert(absolute@ =~= flag(is_absolute(self@.canonical)));
        assert(test@ =~= flag(self.test));
        let parts = components_of(self.canonical.as_str());
        let ghost all = views(parts@);
        let mut i: usize = 0;
        assert(hasher@ =~= texts_hashed(all.take(0)));
        while i < parts.len()
            invariant
                all == views(parts@),
                i <= parts@.len(),
                end@ == seq![0xffu8],
                hasher@ == texts_hashed(all.take(i as int)),
            decreases parts@.len() - i,
        {
            let ghost before = hasher@;
            hasher.write(parts[i].as_str().as_bytes());
            hasher.write(&end);
            assert(all.take(i + 1).drop_last() =~= all.take(i as int));
            assert(all.take(i + 1).last() == parts@[i as int]@);
            assert(hasher@ =~= before + seq![encode_utf8(parts@[i as int]@), seq![0xffu8]]);
            i = i + 1;
        }
        assert(all.take(i as int) =~= all);
        hasher.write(&absolute);
        hasher.write(&test);
        hasher.write(self.extra_filename.as_str().as_bytes());
        hasher.write(&end);
        assert(hasher@ =~= self@.hashed());
        hexadecimal_16(hasher.finish())
    }

    pub fn defs(&self, dir: &str) -> (path: String)
        ensures
            path@ == self@.defs(dir@),
    {
        let name = self.stem().concat(".defs");
        join_path(dir, name.as_str())
    }

    pub fn refs(&self, dir: &str) -> (path: String)
        ensures
            path@ == self@.refs(dir@),
    {
        let name = self.stem().concat(".refs");
        join_path(dir, name.as_str())
    }

    /// `dir` is the directory of the `.refs` and `.defs` files; the `.over`
    /// file is in `over_baseline_counts` beside it.
    pub fn over(&self, dir: &str) -> (path: String)
        ensures
            path@ == self@.over(dir@),
    {
        let counts = beside_path(dir, "over_baseline_counts");
        let name = self.stem().concat(".over");
        join_path(counts.as_str(), name.as_str())
    }

    /// The same unit built without a test harness.
    pub fn plain(&self) -> (unit: Unit)
        ensures
            unit@ == self@.plain(),
    {
        Unit {
            src: self.src.clone(),
            canonical: self.canonical.clone(),
            test: false,
            extra_filename: self.extra_filename.clone(),
        }
    }

    pub fn copy(&self) -> (unit: Unit)
        ensures
            unit@ == self@,
    {
        Unit {
            src: self.src.clone(),
            canonical: self.canonical.clone(),
            test: self.test,
            extra_filename: self.extra_filename.clone(),
        }
    }
}

/// The fields of an item's line.
pub open spec fn def_fields(def: DefView) -> Seq<Seq<char>> {
    seq![
        def.key,
        def.file,
        decimal(def.lo as nat),
        decimal(def.hi as nat),
        def.descr,
        def.path,
        def.parent,
        def.level,
        notes_json(def.notes),
    ]
}

/// An item's line.
pub open spec fn def_line(def: DefView) -> Seq<char> {
    joined(def_fields(def), "\t"@) + "\n"@
}

/// The text of a `.defs` file.
pub open spec fn defs_text(defs: DefsView) -> Seq<char> {
    defs.section + "\n"@ + concat(defs.defs.map_values(|d: DefView| def_line(d)))
}

/// The item that a line describes: nine fields or more, of which the third
/// and the fourth are offsets and the ninth is the notes.
pub open spec fn def_of_line(line: Seq<char>) -> Option<DefView> {
    let f = split(line, '\t');
    if f.len() < 9 {
        None
    } else {
        match (
            parsed_up_to(f[2], u32::MAX as nat),
            parsed_up_to(f[3], u32::MAX as nat),
            json_notes(f[8]),
        ) {
            (Some(lo), Some(hi), Some(notes)) => Some(
                DefView {
                    key: f[0],
                    file: f[1],
                    lo: lo as u32,
                    hi: hi as u32,
                    descr: f[4],
                    path: f[5],
                    parent: f[6],
                    level: f[7],
                    notes,
                },
            ),
            _ => None,
        }
    }
}

/// The items that lines describe; a line that describes none is passed over.
pub open spec fn defs_of_lines(lines: Seq<Seq<char>>) -> Seq<DefView>
    decreases lines.len(),
{
    if lines.len() == 0 {
        Seq::empty()
    } else {
        match def_of_line(lines.last()) {
            Some(def) => defs_of_lines(lines.drop_last()).push(def),
            None => defs_of_lines(lines.drop_last()),
        }
    }
}

/// What a `.defs` text says; a text without a line says nothing.
pub open spec fn defs_of_text(text: Seq<char>) -> Option<DefsView> {
    let all = lines(text);
    if all.len() == 0 {
        None
    } else {
        Some(DefsView { section: all[0], defs: defs_of_lines(all.skip(1)) })
    }
}

/// The text of a `.defs` file.
pub fn write_defs(section: &str, defs: &Vec<Def>) -> (out: String)
    ensures
        out@ == defs_text(DefsView { section: section@, defs: def_views(defs@) }),
{
    let ghost all = def_views(defs@).map_values(|d: DefView| def_line(d));
    let mut out = section.to_owned().concat("\n");
    let mut i: usize = 0;
    assert(concat(all.take(0)) == Seq::<char>::empty());
    assert(out@ + Seq::<char>::empty() == out@);
    while i < defs.len()
        invariant
            i <= defs@.len(),
            all == def_views(defs@).map_values(|d: DefView| def_line(d)),
            out@ == section@ + "\n"@ + concat(all.take(i as int)),
        decreases defs@.len() - i,
    {
        let d = &defs[i];
        let mut fields: Vec<String> = Vec::new();
        fields.push(d.key.clone());
        fields.push(d.file.clone());
        fields.push(decimal_of(d.lo as u64));
        fields.push(decimal_of(d.hi as u64));
        fields.push(d.descr.clone());
        fields.push(d.path.clone());
        fields.push(d.parent.clone());
        fields.push(d.level.clone());
        fields.push(notes_text(&d.notes));
        assert(views(fields@) =~= def_fields(d@));
        let line = join_with(&fields, "\t").concat("\n");
        assert(line@ == def_line(d@));
        let ghost before = out@;
        out.append(line.as_str());
        proof {
            assert(all[i as int] == def_line(d@));
            assert(all.take(i + 1).drop_last() =~= all.take(i as int));
            assert(out@ =~= section@ + "\n"@ + (concat(all.take(i as int)) + line@));
        }
        i = i + 1;
    }
    assert(all.take(i as int) =~= all);
    out
}

/// Whether `s` keeps to its line: it holds no end of a line, and no carriage
/// return stands before the end that follows it.
pub open spec fn keeps_to_line(s: Seq<char>) -> bool {
    !s.contains('\n') && (s.len() > 0 ==> s.last() != '\r')
}

/// Whether `s` keeps to its field: it holds no tab and no end of a line.
pub open spec fn keeps_to_field(s: Seq<char>) -> bool {
    !s.contains('\t') && !s.contains('\n')
}

/// Whether the texts of a unit's items keep to their lines and fields.
pub open spec fn fit_to_write(defs: DefsView) -> bool {
    &&& keeps_to_line(defs.section)
    &&& forall|i: int| 0 <= i < defs.defs.len() ==> fits_a_line(#[trigger] defs.defs[i])
}

/// Whether the texts of an item keep to their fields. Its notes do whatever
/// they say.
pub open spec fn fits_a_line(def: DefView) -> bool {
    &&& keeps_to_field(def.key)
    &&& keeps_to_field(def.file)
    &&& keeps_to_field(def.descr)
    &&& keeps_to_field(def.path)
    &&& keeps_to_field(def.parent)
    &&& keeps_to_field(def.level)
}

/// Whether the notes of an item come back from their JSON.
spec fn notes_survive(def: DefView) -> bool {
    json_notes(notes_json(def.notes)) == Some(def.notes)
}

/// Fields joined by tabs hold no end of a line, and end as the last does.
proof fn lemma_joined_fields(fields: Seq<Seq<char>>)
    requires
        fields.len() > 0,
        forall|i: int| 0 <= i < fields.len() ==> keeps_to_field(#[trigger] fields[i]),
    ensures
        !joined(fields, seq!['\t']).contains('\n'),
        fields.last().len() > 0 ==> joined(fields, seq!['\t']).len() > 0 && joined(
            fields,
            seq!['\t'],
        ).last() == fields.last().last(),
    decreases fields.len(),
{
    let s = joined(fields, seq!['\t']);
    assert(keeps_to_field(fields[fields.len() - 1]));
    if fields.len() > 1 {
        let front = fields.drop_last();
        assert forall|i: int| 0 <= i < front.len() implies keeps_to_field(#[trigger] front[i]) by {
            assert(front[i] == fields[i]);
        }
        lemma_joined_fields(front);
        let head = joined(front, seq!['\t']);
        assert forall|i: int| 0 <= i < s.len() implies s[i] != '\n' by {
            if i < head.len() {
                assert(s[i] == head[i]);
                assert(head.contains(head[i]));
            } else if i > head.len() {
                let last = fields[fields.len() - 1];
                assert(s[i] == last[i - head.len() - 1]);
                assert(last.contains(s[i]));
            }
        }
    }
}

/// An item's line keeps to its line, and is split into the item's fields.
proof fn lemma_def_line_splits(def: DefView)
    requires
        fits_a_line(def),
    ensures
        keeps_to_line(joined(def_fields(def), "\t"@)),
        split(joined(def_fields(def), "\t"@), '\t') == def_fields(def),
{
    reveal_strlit("\t");
    assert("\t"@ =~= seq!['\t']);
    let f = def_fields(def);
    lemma_decimal_is_one_field(def.lo as nat);
    lemma_decimal_is_one_field(def.hi as nat);
    lemma_notes_are_one_field(def.notes);
    assert forall|i: int| 0 <= i < f.len() implies keeps_to_field(#[trigger] f[i]) by {}
    lemma_joined_fields(f);
    lemma_split_joined(f, '\t');
}

proof fn lemma_def_line_reads_back(def: DefView)
    requires
        fits_a_line(def),
        notes_survive(def),
    ensures
        def_of_line(joined(def_fields(def), "\t"@)) == Some(def),
{
    lemma_def_line_splits(def);
    decimal_reads_back(def.lo as nat);
    decimal_reads_back(def.hi as nat);
}

proof fn lemma_def_lines_read_back(defs: Seq<DefView>)
    requires
        forall|i: int| 0 <= i < defs.len() ==> fits_a_line(#[trigger] defs[i]),
    ensures
        lines(concat(defs.map_values(|d: DefView| def_line(d)))) == defs.map_values(
            |d: DefView| joined(def_fields(d), "\t"@),
        ),
    decreases defs.len(),
{
    let texts = defs.map_values(|d: DefView| def_line(d));
    let bare = defs.map_values(|d: DefView| joined(def_fields(d), "\t"@));
    if defs.len() == 0 {
        assert(lines(concat(texts)) =~= bare);
    } else {
        let rest = defs.skip(1);
        assert forall|i: int| 0 <= i < rest.len() implies fits_a_line(#[trigger] rest[i]) by {
            assert(rest[i] == defs[i + 1]);
        }
        lemma_def_lines_read_back(rest);
        lemma_concat_first(texts);
        assert(texts.skip(1) =~= rest.map_values(|d: DefView| def_line(d)));
        assert(fits_a_line(defs[0]));
        lemma_def_line_splits(defs[0]);
        reveal_strlit("\n");
        assert("\n"@ =~= seq!['\n']);
        assert(texts[0] =~= bare[0].push('\n'));
        lemma_lines_first(bare[0], concat(texts.skip(1)));
        assert(bare =~= seq![bare[0]] + rest.map_values(
            |d: DefView| joined(def_fields(d), "\t"@),
        ));
    }
}

proof fn lemma_defs_of_lines(defs: Seq<DefView>)
    requires
        forall|i: int|
            0 <= i < defs.len() ==> fits_a_line(#[trigger] defs[i]) && notes_survive(defs[i]),
    ensures
        defs_of_lines(defs.map_values(|d: DefView| joined(def_fields(d), "\t"@))) == defs,
    decreases defs.len(),
{
    let bare = defs.map_values(|d: DefView| joined(def_fields(d), "\t"@));
    if defs.len() > 0 {
        let front = defs.drop_last();
        assert forall|i: int| 0 <= i < front.len() implies fits_a_line(#[trigger] front[i])
            && notes_survive(front[i]) by {
            assert(front[i] == defs[i]);
        }
        lemma_defs_of_lines(front);
        assert(bare.drop_last() =~= front.map_values(
            |d: DefView| joined(def_fields(d), "\t"@),
        ));
        assert(fits_a_line(defs[defs.len() - 1]));
        lemma_def_line_reads_back(defs.last());
        assert(front.push(defs.last()) =~= defs);
    } else {
        assert(defs_of_lines(bare) =~= defs);
    }
}

/// The lines of a written text are the section and a line for each item.
proof fn lemma_lines_of_defs(defs: DefsView)
    requires
        fit_to_write(defs),
    ensures
        lines(defs_text(defs)) == seq![defs.section] + defs.defs.map_values(
            |d: DefView| joined(def_fields(d), "\t"@),
        ),
{
    lemma_def_lines_read_back(defs.defs);
    reveal_strlit("\n");
    assert("\n"@ =~= seq!['\n']);
    let rest = concat(defs.defs.map_values(|d: DefView| def_line(d)));
    assert(defs_text(defs) =~= defs.section.push('\n') + rest);
    lemma_lines_first(defs.section, rest);
}

/// Whether the notes in a line were read as those they are written for, if
/// they are written for any.
spec fn notes_read(line: Seq<char>) -> bool {
    split(line, '\t').len() >= 9 ==> forall|written: Seq<NoteView>|
        split(line, '\t')[8] == #[trigger] notes_json(written) ==> json_notes(
            notes_json(written),
        ) == Some(written)
}

proof fn lemma_defs_read_back(defs: DefsView)
    requires
        fit_to_write(defs),
        ({
            let rest = lines(defs_text(defs)).skip(1);
            forall|k: int| 0 <= k < rest.len() ==> notes_read(#[trigger] rest[k])
        }),
    ensures
        defs_of_text(defs_text(defs)) == Some(defs),
{
    lemma_lines_of_defs(defs);
    let bare = defs.defs.map_values(|d: DefView| joined(def_fields(d), "\t"@));
    let rest = lines(defs_text(defs)).skip(1);
    assert(rest =~= bare);
    assert forall|i: int| 0 <= i < defs.defs.len() implies fits_a_line(#[trigger] defs.defs[i])
        && notes_survive(defs.defs[i]) by {
        lemma_def_line_splits(defs.defs[i]);
        assert(notes_read(rest[i]));
        assert(split(rest[i], '\t')[8] == notes_json(defs.defs[i].notes));
    }
    lemma_defs_of_lines(defs.defs);
}

fn read_def(line: &str) -> (def: Option<Def>)
    ensures
        match def {
            Some(def) => def_of_line(line@) == Some(def@),
            None => def_of_line(line@) is None,
        },
        notes_read(line@),
{
    let f = split_at_each(line, '\t');
    let ghost v = views(f@);
    if f.len() < 9 {
        return None;
    }
    assert(forall|i: int| 0 <= i < 9 ==> v[i] == f@[i]@);
    let lo = parse_up_to(f[2].as_str(), u32::MAX as u64);
    let hi = parse_up_to(f[3].as_str(), u32::MAX as u64);
    let notes = notes_from_json(f[8].as_str());
    match (lo, hi, notes) {
        (Some(lo), Some(hi), Some(notes)) => {
            let def = Def {
                key: f[0].clone(),
                file: f[1].clone(),
                lo: lo as u32,
                hi: hi as u32,
                descr: f[4].clone(),
                path: f[5].clone(),
                parent: f[6].clone(),
                level: f[7].clone(),
                notes,
            };
            Some(def)
        },
        _ => None,
    }
}

/// What a `.defs` text says; a text without a line says nothing. From a text
/// that [`write_defs`] wrote come the section and the items it was written
/// for, each with every field and note.
pub fn read_defs(text: &str) -> (defs: Option<Defs>)
    ensures
        match defs {
            Some(defs) => defs_of_text(text@) == Some(defs@),
            None => defs_of_text(text@) is None,
        },
        forall|written: DefsView|
            text@ == #[trigger] defs_text(written) && fit_to_write(written) ==> defs_of_text(text@)
                == Some(written),
{
    let all = lines_of(text);
    if all.len() == 0 {
        assert forall|written: DefsView| text@ == #[trigger] defs_text(written) && fit_to_write(
            written,
        ) implies defs_of_text(text@) == Some(written) by {
            lemma_lines_of_defs(written);
        }
        return None;
    }
    let ghost rest = lines(text@).skip(1);
    let mut defs: Vec<Def> = Vec::new();
    let mut i: usize = 1;
    assert(def_views(defs@) =~= defs_of_lines(rest.take(0)));
    while i < all.len()
        invariant
            1 <= i <= all@.len(),
            views(all@) == lines(text@),
            rest == lines(text@).skip(1),
            def_views(defs@) == defs_of_lines(rest.take(i - 1)),
            forall|k: int| 0 <= k < i - 1 ==> notes_read(#[trigger] rest[k]),
        decreases all@.len() - i,
    {
        let ghost before = defs@;
        assert(rest[i - 1] == all@[i as int]@);
        assert(rest.take(i as int).drop_last() =~= rest.take(i - 1));
        assert(rest.take(i as int).last() == all@[i as int]@);
        if let Some(def) = read_def(all[i].as_str()) {
            defs.push(def);
            assert(def_views(defs@) =~= def_views(before).push(def@));
        }
        i = i + 1;
    }
    assert(rest.take(i - 1) =~= rest);
    assert(lines(text@)[0] == all@[0]@);
    assert forall|written: DefsView| text@ == #[trigger] defs_text(written) && fit_to_write(
        written,
    ) implies defs_of_text(text@) == Some(written) by {
        lemma_defs_read_back(written);
    }
    Some(Defs { section: all[0].clone(), defs })
}

/// The text of a `.refs` file.
pub open spec fn refs_text(refs: Seq<Seq<char>>) -> Seq<char> {
    concat(refs.map_values(|r: Seq<char>| r + "\n"@))
}

/// The text of a `.refs` file: a line for each key.
pub fn write_refs(refs: &TextSet) -> (out: String)
    ensures
        out@ == refs_text(refs.listed()),
{
    let ghost all = refs.listed().map_values(|r: Seq<char>| r + "\n"@);
    let mut out = String::new();
    let mut i: usize = 0;
    assert(concat(all.take(0)) == Seq::<char>::empty());
    while i < refs.len()
        invariant
            i <= refs.listed().len(),
            all == refs.listed().map_values(|r: Seq<char>| r + "\n"@),
            out@ == concat(all.take(i as int)),
        decreases refs.listed().len() - i,
    {
        out.append(refs.at(i).as_str());
        out.append("\n");
        assert(all.take(i + 1).drop_last() =~= all.take(i as int));
        assert(out@ =~= concat(all.take(i as int)) + all[i as int]);
        i = i + 1;
    }
    assert(all.take(i as int) =~= all);
    out
}

/// The keys a `.refs` text lists.
pub fn read_refs(text: &str) -> (refs: Vec<String>)
    ensures
        views(refs@) == lines(text@),
{
    lines_of(text)
}

/// What a `.over` text says.
pub enum Over {
    /// The text is empty: the compilation had no findings over its baseline
    /// count.
    Nothing,
    /// The text is one `<section>\t<count>` line: the compilation had `count`
    /// findings over the baseline count in `section`.
    Count { section: String, count: usize },
}

/// What an [`Over`] says.
pub enum OverView {
    Nothing,
    Count { section: Seq<char>, count: nat },
}

impl View for Over {
    type V = OverView;

    open spec fn view(&self) -> OverView {
        match self {
            Over::Nothing => OverView::Nothing,
            Over::Count { section, count } => OverView::Count {
                section: section@,
                count: *count as nat,
            },
        }
    }
}

/// The text of a `.over` file.
pub open spec fn over_text(over: OverView) -> Seq<char> {
    match over {
        OverView::Nothing => Seq::empty(),
        OverView::Count { section, count } => section + "\t"@ + decimal(count) + "\n"@,
    }
}

/// What a `.over` text says: nothing when it is empty, a count when it is a
/// section, a tab, a number as [`write_over`] writes it and the end of the
/// line, and otherwise it is none.
pub open spec fn over_of_text(text: Seq<char>) -> Option<OverView> {
    if text.len() == 0 {
        Some(OverView::Nothing)
    } else if text.last() != '\n' {
        None
    } else {
        let line = text.drop_last();
        let at = crate::text::cut(line, '\t');
        if at == line.len() {
            None
        } else {
            match parsed_up_to(line.skip(at + 1), usize::MAX as nat) {
                Some(count) => if decimal(count) == line.skip(at + 1) {
                    Some(OverView::Count { section: line.take(at), count })
                } else {
                    None
                },
                None => None,
            }
        }
    }
}

/// The text of a `.over` file: the section and its number of findings over
/// the baseline count, or nothing when there are none.
pub fn write_over(over: Option<(&str, usize)>) -> (out: String)
    ensures
        out@ == over_text(
            match over {
                Some((section, count)) => OverView::Count { section: section@, count: count as nat },
                None => OverView::Nothing,
            },
        ),
{
    match over {
        Some((section, count)) => {
            let n = crate::number::count_text(count);
            section.to_owned().concat("\t").concat(n.as_str()).concat("\n")
        },
        None => String::new(),
    }
}

/// What a `.over` text says, or `None` if it holds anything but what
/// [`write_over`] writes.
pub fn read_over(text: &str) -> (over: Option<Over>)
    ensures
        match over {
            Some(over) => over_of_text(text@) == Some(over@),
            None => over_of_text(text@) is None,
        },
{
    let n = text.unicode_len();
    if n == 0 {
        return Some(Over::Nothing);
    }
    if text.get_char(n - 1) != '\n' {
        return None;
    }
    let line = text.substring_char(0, n - 1);
    assert(line@ =~= text@.drop_last());
    match split_once(line, '\t') {
        Some((section, digits)) => match parse_up_to(digits.as_str(), usize::MAX as u64) {
            Some(count) => if same(decimal_of(count).as_str(), digits.as_str()) {
                Some(Over::Count { section, count: count as usize })
            } else {
                None
            },
            None => None,
        },
        None => None,
    }
}

/// Whether some text among `texts` records an item under `key`.
pub open spec fn defines_key(texts: Seq<Seq<char>>, key: Seq<char>) -> bool {
    exists|i: int, j: int|
        0 <= i < texts.len() && defs_of_text(#[trigger] texts[i]) is Some && 0 <= j < defs_of_text(
            texts[i],
        )->0.defs.len() && (#[trigger] defs_of_text(texts[i])->0.defs[j]).key == key
}

/// Every key any `.defs` text lists: the items a use is worth recording for.
pub fn all_def_keys(texts: &Vec<String>) -> (keys: TextSet)
    ensures
        keys.wf(),
        forall|key: Seq<char>| #[trigger]
            keys.contains(key) <==> defines_key(views(texts@), key),
{
    let mut keys = TextSet::new();
    let ghost all = views(texts@);
    let mut i: usize = 0;
    assert forall|key: Seq<char>| #[trigger] keys.contains(key) <==> defines_key(
        all.take(0),
        key,
    ) by {}
    while i < texts.len()
        invariant
            i <= texts@.len(),
            all == views(texts@),
            keys.wf(),
            forall|key: Seq<char>| #[trigger]
                keys.contains(key) <==> defines_key(all.take(i as int), key),
        decreases texts@.len() - i,
    {
        let ghost known = keys;
        let ghost text = all[i as int];
        let read = read_defs(texts[i].as_str());
        if let Some(defs) = read {
            let mut j: usize = 0;
            while j < defs.defs.len()
                invariant
                    j <= defs.defs@.len(),
                    keys.wf(),
                    forall|key: Seq<char>| #[trigger]
                        keys.contains(key) <==> known.contains(key) || exists|k: int|
                            0 <= k < j && (#[trigger] defs.defs@[k])@.key == key,
                decreases defs.defs@.len() - j,
            {
                keys.insert(defs.defs[j].key.as_str());
                j = j + 1;
            }
            assert(defs_of_text(text) == Some(defs@));
            assert forall|key: Seq<char>| #[trigger] keys.contains(key) <==> defines_key(
                all.take(i + 1),
                key,
            ) by {
                lemma_defines_key_step(all, i as int, key);
                assert(known.contains(key) <==> defines_key(all.take(i as int), key));
                if exists|k: int| 0 <= k < defs.defs@.len() && (#[trigger] defs.defs@[k])@.key == key {
                    let k = choose|k: int|
                        0 <= k < defs.defs@.len() && (#[trigger] defs.defs@[k])@.key == key;
                    assert(defs_of_text(all[i as int])->0.defs[k] == defs.defs@[k]@);
                }
                if exists|k: int|
                    0 <= k < defs_of_text(all[i as int])->0.defs.len() && (#[trigger] defs_of_text(
                        all[i as int],
                    )->0.defs[k]).key == key {
                    let k = choose|k: int|
                        0 <= k < defs_of_text(all[i as int])->0.defs.len()
                            && (#[trigger] defs_of_text(all[i as int])->0.defs[k]).key == key;
                    assert(defs.defs@[k]@.key == key);
                }
            }
        } else {
            assert forall|key: Seq<char>| #[trigger] keys.contains(key) <==> defines_key(
                all.take(i + 1),
                key,
            ) by {
                lemma_defines_key_step(all, i as int, key);
            }
        }
        i = i + 1;
    }
    assert(all.take(i as int) =~= all);
    keys
}

proof fn lemma_defines_key_step(texts: Seq<Seq<char>>, i: int, key: Seq<char>)
    requires
        0 <= i < texts.len(),
    ensures
        defines_key(texts.take(i + 1), key) <==> {
            ||| defines_key(texts.take(i), key)
            ||| defs_of_text(texts[i]) is Some && exists|k: int|
                0 <= k < defs_of_text(texts[i])->0.defs.len() && (#[trigger] defs_of_text(
                    texts[i],
                )->0.defs[k]).key == key
        },
{
    let more = texts.take(i + 1);
    let less = texts.take(i);
    if defines_key(more, key) {
        let (a, b) = choose|a: int, b: int|
            0 <= a < more.len() && defs_of_text(#[trigger] more[a]) is Some && 0 <= b
                < defs_of_text(more[a])->0.defs.len() && (#[trigger] defs_of_text(
                more[a],
            )->0.defs[b]).key == key;
        if a < i {
            assert(less[a] == more[a]);
            assert(defs_of_text(less[a])->0.defs[b].key == key);
        }
    }
    if defines_key(less, key) {
        let (a, b) = choose|a: int, b: int|
            0 <= a < less.len() && defs_of_text(#[trigger] less[a]) is Some && 0 <= b
                < defs_of_text(less[a])->0.defs.len() && (#[trigger] defs_of_text(
                less[a],
            )->0.defs[b]).key == key;
        assert(more[a] == less[a]);
        assert(defs_of_text(more[a])->0.defs[b].key == key);
    }
    if defs_of_text(texts[i]) is Some && exists|k: int|
        0 <= k < defs_of_text(texts[i])->0.defs.len() && (#[trigger] defs_of_text(
            texts[i],
        )->0.defs[k]).key == key {
        let k = choose|k: int|
            0 <= k < defs_of_text(texts[i])->0.defs.len() && (#[trigger] defs_of_text(
                texts[i],
            )->0.defs[k]).key == key;
        assert(more[i] == texts[i]);
        assert(defs_of_text(more[i])->0.defs[k].key == key);
    }
}

/// The keys written to a `.refs` text are the keys read from it, in their
/// order, when each keeps to its line.
pub proof fn refs_read_back(refs: Seq<Seq<char>>)
    requires
        forall|i: int| 0 <= i < refs.len() ==> keeps_to_line(#[trigger] refs[i]),
    ensures
        lines(refs_text(refs)) == refs,
    decreases refs.len(),
{
    let texts = refs.map_values(|r: Seq<char>| r + "\n"@);
    if refs.len() == 0 {
        assert(lines(refs_text(refs)) =~= refs);
    } else {
        let rest = refs.skip(1);
        assert forall|i: int| 0 <= i < rest.len() implies keeps_to_line(#[trigger] rest[i]) by {
            assert(rest[i] == refs[i + 1]);
        }
        refs_read_back(rest);
        lemma_concat_first(texts);
        assert(texts.skip(1) =~= rest.map_values(|r: Seq<char>| r + "\n"@));
        reveal_strlit("\n");
        assert("\n"@ =~= seq!['\n']);
        assert(texts[0] =~= refs[0].push('\n'));
        assert(keeps_to_line(refs[0]));
        lemma_lines_first(refs[0], refs_text(rest));
        assert(seq![refs[0]] + rest =~= refs);
    }
}

/// What a compilation writes as its findings over the baseline is what is
/// read from it, for a section without a tab.
pub proof fn over_reads_back(over: OverView)
    requires
        over matches OverView::Count { section, count } ==> !section.contains('\t') && count
            <= usize::MAX,
    ensures
        over_of_text(over_text(over)) == Some(over),
{
    match over {
        OverView::Nothing => {},
        OverView::Count { section, count } => {
            reveal_strlit("\n");
            reveal_strlit("\t");
            assert("\n"@ =~= seq!['\n']);
            assert("\t"@ =~= seq!['\t']);
            let line = section.push('\t') + decimal(count);
            assert(over_text(over) =~= line.push('\n'));
            assert(over_text(over).drop_last() =~= line);
            lemma_cut_after(section, '\t', decimal(count));
            decimal_reads_back(count);
        },
    }
}

/// A text that reads as a count, or as none, is the one that is written for
/// it: a sign or a leading zero is no count.
pub proof fn only_written_counts_are_read(text: Seq<char>, over: OverView)
    requires
        over_of_text(text) == Some(over),
    ensures
        text == over_text(over),
{
    if text.len() > 0 {
        reveal_strlit("\n");
        reveal_strlit("\t");
        let line = text.drop_last();
        let at = crate::text::cut(line, '\t');
        crate::text::lemma_cut(line, '\t');
        assert(text =~= over_text(over));
    } else {
        assert(text =~= over_text(over));
    }
}

proof fn lemma_texts_hashed(a: Seq<Seq<char>>, b: Seq<Seq<char>>)
    requires
        texts_hashed(a) == texts_hashed(b),
    ensures
        a == b,
    decreases a.len(),
{
    lemma_hashed_twice(a);
    lemma_hashed_twice(b);
    let writes = texts_hashed(a);
    if a.len() > 0 {
        let n = writes.len() as int;
        assert(writes[n - 2] == encode_utf8(a.last()));
        assert(writes[n - 2] == encode_utf8(b.last()));
        vstd::utf8::encode_utf8_decode_utf8(a.last());
        vstd::utf8::encode_utf8_decode_utf8(b.last());
        lemma_hashed_twice(a.drop_last());
        lemma_hashed_twice(b.drop_last());
        assert(writes.take(n - 2) =~= texts_hashed(a.drop_last()));
        assert(writes.take(n - 2) =~= texts_hashed(b.drop_last()));
        lemma_texts_hashed(a.drop_last(), b.drop_last());
        assert(a =~= a.drop_last().push(a.last()));
        assert(b =~= b.drop_last().push(b.last()));
    } else {
        assert(a =~= b);
    }
}

proof fn lemma_hashed_twice(texts: Seq<Seq<char>>)
    ensures
        texts_hashed(texts).len() == 2 * texts.len(),
    decreases texts.len(),
{
    if texts.len() > 0 {
        lemma_hashed_twice(texts.drop_last());
    }
}

/// Two units that hand the hasher the same writes are the same unit: the
/// crate root, the test harness and the extra file name all tell units apart.
pub proof fn hashed_tells_units_apart(a: UnitView, b: UnitView)
    requires
        a.hashed() == b.hashed(),
    ensures
        are_same(a.canonical, b.canonical),
        a.test == b.test,
        a.extra_filename == b.extra_filename,
{
    let own = texts_hashed(components(a.canonical));
    let other = texts_hashed(components(b.canonical));
    let n = own.len() as int;
    assert(a.hashed().len() == n + 4 && b.hashed().len() == other.len() + 4);
    assert(own =~= a.hashed().take(n));
    assert(other =~= b.hashed().take(n));
    lemma_texts_hashed(components(a.canonical), components(b.canonical));
    assert(a.hashed()[n] == flag(is_absolute(a.canonical)));
    assert(b.hashed()[n] == flag(is_absolute(b.canonical)));
    assert(flag(is_absolute(a.canonical))[0] == flag(is_absolute(b.canonical))[0]);
    assert(a.hashed()[n + 1] == flag(a.test));
    assert(b.hashed()[n + 1] == flag(b.test));
    assert(flag(a.test)[0] == flag(b.test)[0]);
    assert(a.hashed()[n + 2] == encode_utf8(a.extra_filename));
    assert(b.hashed()[n + 2] == encode_utf8(b.extra_filename));
    vstd::utf8::encode_utf8_decode_utf8(a.extra_filename);
    vstd::utf8::encode_utf8_decode_utf8(b.extra_filename);
}

/// A unit's files are named alike however its crate root is spelled.
pub proof fn one_path_has_one_stem(a: UnitView, b: UnitView)
    requires
        are_same(a.canonical, b.canonical),
        a.test == b.test,
        a.extra_filename == b.extra_filename,
    ensures
        a.stem() == b.stem(),
{
}

proof fn lemma_last_colon(file: Seq<char>, lo: nat, other_file: Seq<char>, other_lo: nat)
    requires
        file + ":"@ + decimal(lo) == other_file + ":"@ + decimal(other_lo),
    ensures
        file.len() >= other_file.len(),
{
    reveal_strlit(":");
    assert(":"@ =~= seq![':']);
    let s = file + ":"@ + decimal(lo);
    let other = other_file + ":"@ + decimal(other_lo);
    let at = other_file.len() as int;
    assert(other[at] == ':');
    assert(s.len() == other.len() && s.len() == file.len() + 1 + decimal(lo).len());
    if file.len() < at {
        assert(s[at] == decimal(lo)[at - file.len() - 1]);
        decimal_is_digits(lo);
        assert(is_digit(decimal(lo)[at - file.len() - 1]));
    }
}

/// Items of two places have two position keys, for crates without an `@` in
/// their name.
pub proof fn position_tells_places_apart(
    krate: Seq<char>,
    file: Seq<char>,
    lo: nat,
    other_krate: Seq<char>,
    other_file: Seq<char>,
    other_lo: nat,
)
    requires
        !krate.contains('@'),
        !other_krate.contains('@'),
        position(krate, file, lo) == position(other_krate, other_file, other_lo),
    ensures
        krate == other_krate,
        file == other_file,
        lo == other_lo,
{
    reveal_strlit("@");
    assert("@"@ =~= seq!['@']);
    let place = file + ":"@ + decimal(lo);
    let other_place = other_file + ":"@ + decimal(other_lo);
    assert(position(krate, file, lo) =~= krate.push('@') + place);
    assert(position(other_krate, other_file, other_lo) =~= other_krate.push('@') + other_place);
    lemma_cut_after(krate, '@', place);
    lemma_cut_after(other_krate, '@', other_place);
    assert(krate == other_krate);
    assert(place == other_place);
    lemma_last_colon(file, lo, other_file, other_lo);
    lemma_last_colon(other_file, other_lo, file, lo);
    assert(file =~= place.take(file.len() as int));
    assert(other_file =~= other_place.take(other_file.len() as int));
    reveal_strlit(":");
    assert(decimal(lo) =~= place.skip(file.len() as int + 1));
    assert(decimal(other_lo) =~= other_place.skip(other_file.len() as int + 1));
    decimal_reads_back(lo);
    decimal_reads_back(other_lo);
}

/// A key of a crate and a path is of that crate.
pub proof fn a_key_is_of_the_crate_it_starts_with(krate: Seq<char>, path: Seq<char>)
    requires
        !krate.contains(':'),
    ensures
        crate_of(krate + "::"@ + path) == krate,
    decreases krate.len(),
{
    reveal_strlit("::");
    let key = krate + "::"@ + path;
    lemma_first_colons_is(krate, path);
    assert(key.take(krate.len() as int) =~= krate);
}

proof fn lemma_first_colons_is(krate: Seq<char>, path: Seq<char>)
    requires
        !krate.contains(':'),
    ensures
        first_colons(krate + "::"@ + path) == krate.len(),
    decreases krate.len(),
{
    reveal_strlit("::");
    let key = krate + "::"@ + path;
    if krate.len() > 0 {
        assert(krate.contains(krate[0]));
        let less = krate.skip(1);
        assert(!less.contains(':')) by {
            if less.contains(':') {
                let k = choose|k: int| 0 <= k < less.len() && less[k] == ':';
                assert(krate[k + 1] == ':');
            }
        }
        lemma_first_colons_is(less, path);
        assert(key.skip(1) =~= less + "::"@ + path);
    } else {
        assert(key[0] == ':' && key[1] == ':');
    }
}

/// A line that describes no item is passed over, and the items of two runs of
/// lines are those of the one and then those of the other.
pub proof fn items_are_read_line_by_line(a: Seq<Seq<char>>, b: Seq<Seq<char>>)
    ensures
        defs_of_lines(a + b) == defs_of_lines(a) + defs_of_lines(b),
        a.len() == 1 ==> defs_of_lines(a) == match def_of_line(a[0]) {
            Some(def) => seq![def],
            None => Seq::empty(),
        },
        defs_of_lines(a).len() <= a.len(),
    decreases b.len() + a.len(),
{
    if b.len() > 0 {
        items_are_read_line_by_line(a, b.drop_last());
        assert((a + b).drop_last() =~= a + b.drop_last());
        assert(defs_of_lines(a + b) =~= defs_of_lines(a) + defs_of_lines(b));
    } else {
        assert(a + b =~= a);
        assert(defs_of_lines(a) + defs_of_lines(b) =~= defs_of_lines(a));
        if a.len() > 0 {
            items_are_read_line_by_line(a.drop_last(), b);
        }
    }
    if a.len() == 1 {
        assert(defs_of_lines(a.drop_last()) =~= Seq::<DefView>::empty());
        assert(defs_of_lines(a) =~= match def_of_line(a[0]) {
            Some(def) => seq![def],
            None => Seq::empty(),
        });
    }
}

/// The fields of a line are where they are written: the key, the file, the two
/// offsets, the description, the path, the parent and the level.
pub proof fn a_line_is_read_field_by_field(line: Seq<char>, fields: Seq<Seq<char>>)
    requires
        fields.len() >= 9,
        forall|i: int| 0 <= i < fields.len() ==> !(#[trigger] fields[i]).contains('\t'),
        line == joined(fields, seq!['\t']),
        def_of_line(line) is Some,
    ensures
        ({
            let def = def_of_line(line)->0;
            &&& def.key == fields[0] && def.file == fields[1] && def.descr == fields[4]
            &&& def.path == fields[5] && def.parent == fields[6] && def.level == fields[7]
            &&& parsed_up_to(fields[2], u32::MAX as nat) == Some(def.lo as nat)
            &&& parsed_up_to(fields[3], u32::MAX as nat) == Some(def.hi as nat)
        }),
{
    lemma_split_joined(fields, '\t');
}

/// A unit without its harness is the same crate root and the same build but
/// for that, and it is itself where it has none.
pub proof fn a_plain_unit_differs_in_its_harness_alone(unit: UnitView)
    ensures
        !unit.plain().test,
        unit.plain().src == unit.src,
        unit.plain().canonical == unit.canonical,
        unit.plain().extra_filename == unit.extra_filename,
        !unit.test ==> unit.plain() == unit,
        unit.test ==> unit.plain().hashed() != unit.hashed(),
{
    if unit.test {
        let a = unit.plain().hashed();
        let b = unit.hashed();
        let n = texts_hashed(components(unit.canonical)).len() as int;
        assert(a[n + 1] == flag(false) && b[n + 1] == flag(true));
        assert(flag(false)[0] == 0u8 && flag(true)[0] == 1u8);
    }
}

proof fn lemma_hexadecimal_plain(n: nat, width: nat)
    ensures
        hexadecimal(n, width).len() == width,
        !hexadecimal(n, width).contains('/'),
        !hexadecimal(n, width).contains('.'),
    decreases width,
{
    let s = hexadecimal(n, width);
    if width > 0 {
        lemma_hexadecimal_plain(n / 16, (width - 1) as nat);
        let front = hexadecimal(n / 16, (width - 1) as nat);
        assert forall|k: int| 0 <= k < s.len() implies s[k] != '/' && s[k] != '.' by {
            if k < front.len() {
                assert(front.contains(front[k]));
            }
        }
    }
}

/// A unit's records lie in the run's directory and its count beside that, each
/// named by the unit's stem and by what it holds.
pub proof fn a_units_files_are_named_by_its_stem(unit: UnitView, dir: Seq<char>)
    ensures
        file_name(unit.defs(dir)) == Some(unit.stem() + ".defs"@),
        file_name(unit.refs(dir)) == Some(unit.stem() + ".refs"@),
        file_name(unit.over(dir)) == Some(unit.stem() + ".over"@),
        directory(unit.defs(dir)) matches Some(at) && components(at) == components(dir)
            && is_absolute(at) == is_absolute(dir),
        directory(unit.refs(dir)) matches Some(at) && components(at) == components(dir)
            && is_absolute(at) == is_absolute(dir),
        unit.defs(dir) != unit.refs(dir),
{
    reveal_strlit(".defs");
    reveal_strlit(".refs");
    reveal_strlit(".over");
    reveal_strlit(".");
    reveal_strlit("..");
    let stem = unit.stem();
    lemma_hexadecimal_plain(DefaultHasher::spec_finish(unit.hashed()) as nat, 16);
    lemma_plain_name(stem, ".defs"@);
    lemma_plain_name(stem, ".refs"@);
    lemma_plain_name(stem, ".over"@);
    a_file_lies_in_the_directory_it_is_joined_to(dir, stem + ".defs"@);
    a_file_lies_in_the_directory_it_is_joined_to(dir, stem + ".refs"@);
    a_file_lies_in_the_directory_it_is_joined_to(
        beside(dir, "over_baseline_counts"@),
        stem + ".over"@,
    );
    assert((stem + ".defs"@)[17] == 'd' && (stem + ".refs"@)[17] == 'r');
}

proof fn lemma_plain_name(stem: Seq<char>, ending: Seq<char>)
    requires
        stem.len() == 16,
        !stem.contains('/'),
        !ending.contains('/'),
    ensures
        (stem + ending).len() >= 16,
        !(stem + ending).contains('/'),
        stem + ending != "."@,
        stem + ending != ".."@,
{
    reveal_strlit(".");
    reveal_strlit("..");
    let name = stem + ending;
    if name.contains('/') {
        let k = choose|k: int| 0 <= k < name.len() && name[k] == '/';
        if k < 16 {
            assert(stem[k] == '/');
        } else {
            assert(ending[k - 16] == '/');
        }
    }
}

/// Fields behind the ninth are passed over: a line with more describes the
/// same item as without them, and one with fewer describes none.
pub proof fn a_line_is_read_by_its_first_nine_fields(fields: Seq<Seq<char>>)
    requires
        fields.len() > 0,
        forall|i: int| 0 <= i < fields.len() ==> !(#[trigger] fields[i]).contains('\t'),
    ensures
        fields.len() >= 9 ==> def_of_line(joined(fields, seq!['\t'])) == def_of_line(
            joined(fields.take(9), seq!['\t']),
        ),
        fields.len() < 9 ==> def_of_line(joined(fields, seq!['\t'])) is None,
{
    lemma_split_joined(fields, '\t');
    if fields.len() >= 9 {
        let nine = fields.take(9);
        assert forall|i: int| 0 <= i < nine.len() implies !(#[trigger] nine[i]).contains('\t') by {
            assert(nine[i] == fields[i]);
        }
        lemma_split_joined(nine, '\t');
        assert(nine[0] == fields[0] && nine[1] == fields[1] && nine[2] == fields[2]);
        assert(nine[3] == fields[3] && nine[4] == fields[4] && nine[5] == fields[5]);
        assert(nine[6] == fields[6] && nine[7] == fields[7] && nine[8] == fields[8]);
    }
}

} // verus!
