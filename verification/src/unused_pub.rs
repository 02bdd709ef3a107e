//! `unused_pub`'s findings, once the run is judged: the messages that report
//! them, how they are held to the baseline, and how they are written to it.

use vstd::prelude::*;
use vstd::string::*;

use crate::args::{Output, OutputView};
use crate::baseline_file::{
    counts_toml, doc_read, entries_of, entry, entry_key, find, found_from, has_entry,
    lemma_section_names, over_message, over_words, recorded, recorded_count, section_names, total,
    total_over, totals_fit, update, Doc, Recorded,
};
use crate::diagnostics::{severity_of, Message, MessageView, Remark, RemarkView, Severity};
use crate::excerpt::{Excerpt, ExcerptView};
use crate::files::{text_at, Files};
use crate::judge::{in_sections, lemma_filtered, Finding, FindingView, Records};
use crate::maps::{lemma_listed, lemma_one_place, TextMap};
use crate::number::{count_text, decimal};
use crate::order::text_before;
use crate::over_baseline::{count_over, join, listed_in_words, LineView, OverBaselineLine};
use crate::paths::{directory, directory_of, from_root, join_path, joined_path, path_from_root};
use crate::records::{note_views, Def, DefView, Note, NoteView};
use crate::sets::{increasing, TextSet};
use crate::text::{
    a_part_stands_between, contains, has_prefix, holds, lemma_cut_after, opt_view, same,
    starts_with, viewed, views,
};

verus! {

/// The lint's name.
pub const LINT: &'static str = "unused_pub";

/// What the lint advises.
pub const HELP: &'static str =
    "remove it; if code under a `cfg`, target or feature not compiled here uses it, gate the item the same way";

/// What is said of an unused item.
pub open spec fn item_words(def: DefView) -> Seq<char> {
    def.descr + " `"@ + def.path + "` is public, but nothing in the workspace uses it"@
}

/// What is said of an unused item.
pub fn words_for(def: &Def) -> (text: String)
    ensures
        text@ == item_words(def@),
{
    def.descr.clone().concat(" `").concat(def.path.as_str()).concat(
        "` is public, but nothing in the workspace uses it",
    )
}

/// A message about no one item. In JSON it is attributed to `fallback`.
pub open spec fn plain_message(
    severity: Severity,
    text: Seq<char>,
    fallback: Option<int>,
) -> MessageView {
    MessageView {
        severity,
        text,
        code: None,
        at: None,
        remarks: Seq::empty(),
        unit: fallback,
        closing: false,
    }
}

/// The text of a source file, which is named from the workspace root.
pub open spec fn source_of(
    sources: Map<Seq<char>, Seq<char>>,
    root: Seq<char>,
    file: Seq<char>,
) -> Option<Seq<char>> {
    text_at(sources, joined_path(root, file))
}

/// A note as a remark. It points at the source if that could be read.
pub open spec fn remark_of(
    sources: Map<Seq<char>, Seq<char>>,
    root: Seq<char>,
    note: NoteView,
) -> RemarkView {
    RemarkView {
        help: note.help,
        text: note.message,
        at: match note.at {
            Some((file, lo, hi)) => match source_of(sources, root, file) {
                Some(source) => Some(ExcerptView { file, source, lo, hi }),
                None => None,
            },
            None => None,
        },
    }
}

/// The notes under a finding: the baseline's, for one that is printed because
/// it goes over the recorded count, and else those of its level.
pub open spec fn notes_under(def: DefView, over: Option<Seq<char>>) -> Seq<NoteView> {
    match over {
        Some(note) => seq![NoteView { help: false, message: note, at: None }],
        None => def.notes,
    }
}

/// The message for one finding. `over` is the baseline's note, for a finding
/// printed because it goes over the recorded count: it is the baseline's
/// warning then, not the lint.
pub open spec fn finding_message(
    sources: Map<Seq<char>, Seq<char>>,
    root: Seq<char>,
    finding: FindingView,
    severity: Severity,
    over: Option<Seq<char>>,
    fallback: Option<int>,
) -> MessageView {
    let def = finding.def;
    match source_of(sources, root, def.file) {
        None => plain_message(
            Severity::Warning,
            "mordant: "@ + item_words(def) + " ("@ + def.file + " could not be read)"@,
            fallback,
        ),
        Some(source) => MessageView {
            severity,
            text: item_words(def),
            code: if over is None {
                Some(LINT@)
            } else {
                None
            },
            at: Some(ExcerptView { file: def.file, source, lo: def.lo, hi: def.hi }),
            remarks: seq![RemarkView { help: true, text: HELP@, at: None }] + notes_under(
                def,
                over,
            ).map_values(|note: NoteView| remark_of(sources, root, note)),
            unit: Some(finding.unit),
            closing: false,
        },
    }
}

/// Makes the messages of one report.
pub struct Printer<'a> {
    root: &'a str,
    sources: &'a Files,
    /// What a message not about any one item is attributed to in JSON.
    fallback: Option<usize>,
    messages: Vec<Message>,
    warnings: usize,
    errors: usize,
}

/// How many of the messages are about an item whose source could be read, and
/// have that severity.
pub open spec fn tallied(messages: Seq<MessageView>, severity: Severity) -> nat
    decreases messages.len(),
{
    if messages.len() == 0 {
        0
    } else {
        tallied(messages.drop_last(), severity) + if messages.last().at is Some
            && messages.last().severity == severity {
            1nat
        } else {
            0nat
        }
    }
}

proof fn lemma_tally(messages: Seq<MessageView>)
    ensures
        tallied(messages, Severity::Warning) + tallied(messages, Severity::Error) <= messages.len(),
    decreases messages.len(),
{
    if messages.len() > 0 {
        lemma_tally(messages.drop_last());
    }
}

/// `1 warning`, `2 warnings`.
pub open spec fn plural(n: nat, what: Seq<char>) -> Seq<char> {
    if n == 1 {
        "1 "@ + what
    } else {
        decimal(n) + " "@ + what + "s"@
    }
}

fn plural_text(n: usize, what: &str) -> (text: String)
    ensures
        text@ == plural(n as nat, what@),
{
    if n == 1 {
        "1 ".to_owned().concat(what)
    } else {
        count_text(n).concat(" ").concat(what).concat("s")
    }
}

/// The closing count, if there is anything to count and it is not JSON.
pub open spec fn closing_count(output: OutputView, errors: nat, warnings: nat) -> Seq<MessageView> {
    let start = "`"@ + LINT@ + "` generated "@;
    if output is Json || errors + warnings == 0 {
        Seq::empty()
    } else {
        seq![
            MessageView {
                severity: if errors == 0 {
                    Severity::Warning
                } else {
                    Severity::Error
                },
                text: if errors == 0 {
                    start + plural(warnings, "warning"@)
                } else if warnings == 0 {
                    start + plural(errors, "error"@)
                } else {
                    start + plural(errors, "error"@) + " and "@ + plural(warnings, "warning"@)
                },
                code: None,
                at: None,
                remarks: Seq::empty(),
                unit: None,
                closing: true,
            },
        ]
    }
}

impl<'a> Printer<'a> {
    /// The messages so far.
    pub closed spec fn said(&self) -> Seq<MessageView> {
        viewed(self.messages@)
    }

    pub closed spec fn root(&self) -> Seq<char> {
        self.root@
    }

    pub closed spec fn sources(&self) -> Map<Seq<char>, Seq<char>> {
        self.sources@
    }

    pub closed spec fn fallback(&self) -> Option<int> {
        match self.fallback {
            Some(unit) => Some(unit as int),
            None => None,
        }
    }

    pub closed spec fn wf(&self) -> bool {
        &&& self.sources.wf()
        &&& self.warnings == tallied(self.said(), Severity::Warning)
        &&& self.errors == tallied(self.said(), Severity::Error)
    }

    /// Whether only the messages differ.
    pub open spec fn same_settings(&self, other: &Self) -> bool {
        &&& self.root() == other.root()
        &&& self.sources() == other.sources()
        &&& self.fallback() == other.fallback()
    }

    /// Nothing is said yet. `units` is how many units the run has: a message
    /// about no one item is attributed to the first.
    pub fn new(root: &'a str, sources: &'a Files, units: usize) -> (printer: Printer<'a>)
        requires
            sources.wf(),
        ensures
            printer.wf(),
            printer.root() == root@,
            printer.sources() == sources@,
            printer.fallback() == first_unit(units as nat),
            printer.said() == Seq::<MessageView>::empty(),
    {
        let fallback: Option<usize> = if units > 0 {
            Some(0)
        } else {
            None
        };
        let printer = Printer {
            root,
            sources,
            fallback,
            messages: Vec::new(),
            warnings: 0,
            errors: 0,
        };
        assert(printer.said() =~= Seq::<MessageView>::empty());
        printer
    }

    fn source(&self, file: &str) -> (source: Option<&String>)
        requires
            self.wf(),
        ensures
            match source {
                Some(source) => source_of(self.sources(), self.root(), file@) == Some(source@),
                None => source_of(self.sources(), self.root(), file@) is None,
            },
    {
        let path = join_path(self.root, file);
        self.sources.read(path.as_str())
    }

    /// A message about no one item: `mordant: ...`, with no code and no span.
    pub fn plain(&mut self, severity: Severity, message: String)
        requires
            old(self).wf(),
        ensures
            final(self).wf(),
            final(self).same_settings(old(self)),
            final(self).said() == old(self).said().push(
                plain_message(severity, message@, old(self).fallback()),
            ),
    {
        let ghost before = self.said();
        let message = Message {
            severity,
            text: message,
            code: None,
            at: None,
            remarks: Vec::new(),
            unit: self.fallback,
            closing: false,
        };
        self.messages.push(message);
        assert(message@.remarks =~= Seq::<RemarkView>::empty());
        assert(self.said() =~= before.push(message@));
        assert(self.said().drop_last() =~= before);
    }

    fn remark(&self, note: &Note) -> (remark: Remark)
        requires
            self.wf(),
        ensures
            remark@ == remark_of(self.sources(), self.root(), note@),
    {
        let at = match &note.at {
            Some((file, lo, hi)) => match self.source(file.as_str()) {
                Some(source) => Some(
                    Excerpt { file: file.clone(), source: source.clone(), lo: *lo, hi: *hi },
                ),
                None => None,
            },
            None => None,
        };
        Remark { help: note.help, text: note.message.clone(), at }
    }

    /// One finding. `over` is the baseline's note, for a finding printed
    /// because it goes over the recorded count, which no level can raise.
    pub fn finding(&mut self, finding: &Finding, severity: Severity, over: Option<String>)
        requires
            old(self).wf(),
            old(self).said().len() < usize::MAX,
        ensures
            final(self).wf(),
            final(self).same_settings(old(self)),
            final(self).said() == old(self).said().push(
                finding_message(
                    old(self).sources(),
                    old(self).root(),
                    finding@,
                    severity,
                    opt_view(over),
                    old(self).fallback(),
                ),
            ),
    {
        let def = &finding.def;
        let words = words_for(def);
        let source = match self.source(def.file.as_str()) {
            Some(source) => source.clone(),
            None => {
                let message = "mordant: ".to_owned().concat(words.as_str()).concat(" (").concat(
                    def.file.as_str(),
                ).concat(" could not be read)");
                self.plain(Severity::Warning, message);
                return;
            },
        };
        let ghost before = self.said();
        let ghost notes = notes_under(def@, opt_view(over));
        let ghost under = notes.map_values(
            |note: NoteView| remark_of(self.sources(), self.root(), note),
        );
        let help = Remark { help: true, text: HELP.to_owned(), at: None };
        let ghost first = seq![help@];
        let mut remarks: Vec<Remark> = Vec::new();
        remarks.push(help);
        assert(viewed(remarks@) =~= first);
        let code = match over {
            Some(note) => {
                let note = Note { help: false, message: note, at: None };
                let remark = self.remark(&note);
                remarks.push(remark);
                assert(viewed(remarks@) =~= first.push(remark@));
                assert(under =~= seq![remark@]);
                assert(first.push(remark@) =~= first + under);
                None
            },
            None => {
                let mut i: usize = 0;
                assert(first + under.take(0) =~= first);
                while i < def.notes.len()
                    invariant
                        self.wf(),
                        self.said() == before,
                        i <= def.notes@.len(),
                        notes == note_views(def.notes@),
                        under == notes.map_values(
                            |note: NoteView| remark_of(self.sources(), self.root(), note),
                        ),
                        viewed(remarks@) == first + under.take(i as int),
                    decreases def.notes@.len() - i,
                {
                    let ghost remarks_before = viewed(remarks@);
                    let remark = self.remark(&def.notes[i]);
                    remarks.push(remark);
                    assert(under[i as int] == remark@);
                    assert(viewed(remarks@) =~= remarks_before.push(remark@));
                    assert(under.take(i + 1) =~= under.take(i as int).push(remark@));
                    assert(remarks_before.push(remark@) =~= first + under.take(i + 1));
                    i = i + 1;
                }
                assert(under.take(i as int) =~= under);
                Some(LINT.to_owned())
            },
        };
        let message = Message {
            severity,
            text: words,
            code,
            at: Some(Excerpt { file: def.file.clone(), source, lo: def.lo, hi: def.hi }),
            remarks,
            unit: Some(finding.unit),
            closing: false,
        };
        proof {
            lemma_tally(before);
        }
        self.messages.push(message);
        match severity {
            Severity::Warning => {
                self.warnings = self.warnings + 1;
            },
            Severity::Error => {
                self.errors = self.errors + 1;
            },
        }
        assert(self.said() =~= before.push(message@));
        assert(self.said().drop_last() =~= before);
    }

    /// The closing count, as the compiler prints its own; what was said, and
    /// whether any finding was an error.
    pub fn tally(self, output: &Output) -> (r: (Vec<Message>, bool))
        requires
            self.wf(),
        ensures
            viewed(r.0@) == self.said() + closing_count(
                output@,
                tallied(self.said(), Severity::Error),
                tallied(self.said(), Severity::Warning),
            ),
            r.1 == (tallied(self.said(), Severity::Error) > 0),
    {
        let ghost said = self.said();
        let failed = self.errors > 0;
        let mut messages = self.messages;
        let json = match output {
            Output::Json(_) => true,
            Output::Human => false,
            Output::Short => false,
        };
        if json || (self.errors == 0 && self.warnings == 0) {
            assert(said + Seq::<MessageView>::empty() =~= said);
            return (messages, failed);
        }
        let start = "`".to_owned().concat(LINT).concat("` generated ");
        let (severity, text) = if self.errors == 0 {
            (Severity::Warning, start.concat(plural_text(self.warnings, "warning").as_str()))
        } else if self.warnings == 0 {
            (Severity::Error, start.concat(plural_text(self.errors, "error").as_str()))
        } else {
            (
                Severity::Error,
                start.concat(plural_text(self.errors, "error").as_str()).concat(" and ").concat(
                    plural_text(self.warnings, "warning").as_str(),
                ),
            )
        };
        let message = Message {
            severity,
            text,
            code: None,
            at: None,
            remarks: Vec::new(),
            unit: None,
            closing: true,
        };
        assert(message@.remarks =~= Seq::<RemarkView>::empty());
        messages.push(message);
        assert(viewed(messages@) =~= said.push(message@));
        assert(said.push(message@) =~= said + seq![message@]);
        (messages, failed)
    }
}

/// The unit that a message about no one item is attributed to.
pub open spec fn first_unit(units: nat) -> Option<int> {
    if units > 0 {
        Some(0)
    } else {
        None
    }
}

/// Whether an entry is one of this lint's.
pub open spec fn is_own(key: Seq<char>) -> bool {
    starts_with(key, LINT@ + ":"@)
}

/// How many of the findings are counted under `key` in `section`.
pub open spec fn found_for(
    findings: Seq<FindingView>,
    section: Seq<char>,
    key: Seq<char>,
) -> nat
    decreases findings.len(),
{
    if findings.len() == 0 {
        0
    } else {
        found_for(findings.drop_last(), section, key) + if findings.last().section == section
            && entry_key(LINT@, findings.last().def.file) == key {
            1nat
        } else {
            0nat
        }
    }
}

/// The entries of a section once the findings are written: in a section that
/// the run judged, this lint's entries are the findings', and every other
/// entry is as it was.
pub open spec fn written_entries(
    doc: Map<Seq<char>, Map<Seq<char>, u64>>,
    sections: Seq<Seq<char>>,
    findings: Seq<FindingView>,
    section: Seq<char>,
) -> Map<Seq<char>, u64> {
    let was = entries_of(doc, section);
    let judged = sections.contains(section);
    Map::new(
        |key: Seq<char>|
            if judged && is_own(key) {
                found_for(findings, section, key) > 0
            } else {
                was.dom().contains(key)
            },
        |key: Seq<char>|
            if judged && is_own(key) {
                found_for(findings, section, key) as u64
            } else {
                was[key]
            },
    )
}

/// Whether there is any entry.
pub open spec fn has_any(entries: Map<Seq<char>, u64>) -> bool {
    exists|key: Seq<char>| #[trigger] entries.dom().contains(key)
}

/// A baseline once the findings are written. A section without entries is
/// dropped.
pub open spec fn written(
    doc: Map<Seq<char>, Map<Seq<char>, u64>>,
    sections: Seq<Seq<char>>,
    findings: Seq<FindingView>,
) -> Map<Seq<char>, Map<Seq<char>, u64>> {
    Map::new(
        |section: Seq<char>| has_any(written_entries(doc, sections, findings, section)),
        |section: Seq<char>| written_entries(doc, sections, findings, section),
    )
}

/// The entries without this lint's.
fn without_own(entries: &TextMap<u64>) -> (out: TextMap<u64>)
    requires
        entries.wf(),
    ensures
        out.wf(),
        forall|k: Seq<char>| #[trigger]
            out@.dom().contains(k) <==> entries@.dom().contains(k) && !is_own(k),
        forall|k: Seq<char>| #[trigger] out@.dom().contains(k) ==> out@[k] == entries@[k],
{
    let ghost keys = entries.keys();
    let own = LINT.to_owned().concat(":");
    let mut out: TextMap<u64> = TextMap::new();
    let mut i: usize = 0;
    while i < entries.len()
        invariant
            entries.wf(),
            keys == entries.keys(),
            own@ == LINT@ + ":"@,
            i <= keys.len(),
            out.wf(),
            forall|k: Seq<char>| #[trigger]
                out@.dom().contains(k) <==> keys.take(i as int).contains(k) && !is_own(k),
            forall|k: Seq<char>| #[trigger] out@.dom().contains(k) ==> out@[k] == entries@[k],
        decreases keys.len() - i,
    {
        let ghost was = keys.take(i as int);
        let ghost now = keys.take(i + 1);
        let key = entries.key_at(i);
        proof {
            lemma_listed(entries.keys(), entries.values());
            assert(now =~= was.push(key@));
            assert(now[i as int] == key@);
            assert forall|k: Seq<char>| #[trigger]
                now.contains(k) <==> was.contains(k) || k == key@ by {
                if was.contains(k) {
                    let j = choose|j: int| 0 <= j < was.len() && was[j] == k;
                    assert(now[j] == k);
                }
            }
        }
        if !has_prefix(key.as_str(), own.as_str()) {
            out.put(key.as_str(), *entries.value_at(i));
        }
        i = i + 1;
    }
    proof {
        lemma_listed(entries.keys(), entries.values());
        assert(keys.take(i as int) =~= keys);
    }
    out
}

/// The document without this lint's entries in the judged sections.
fn cleared(doc: Doc, sections: &TextSet) -> (out: Doc)
    requires
        doc.wf(),
        sections.wf(),
    ensures
        out.wf(),
        forall|s: Seq<char>| #[trigger]
            entries_of(out@, s) == written_entries(doc@, sections.listed(), Seq::empty(), s),
{
    let ghost start = doc@;
    let ghost none = Seq::<FindingView>::empty();
    let ghost names = sections.listed();
    let mut out = doc;
    let mut i: usize = 0;
    assert forall|s: Seq<char>| #[trigger]
        entries_of(out@, s) == written_entries(start, names.take(0), none, s) by {
        assert(entries_of(out@, s) =~= written_entries(start, names.take(0), none, s));
    }
    while i < sections.len()
        invariant
            start == doc@,
            none == Seq::<FindingView>::empty(),
            names == sections.listed(),
            i <= names.len(),
            out.wf(),
            forall|s: Seq<char>| #[trigger]
                entries_of(out@, s) == written_entries(start, names.take(i as int), none, s),
        decreases names.len() - i,
    {
        let ghost before = out@;
        let ghost was = names.take(i as int);
        let ghost now = names.take(i + 1);
        let name = sections.at(i);
        let entries = out.take_section(name.as_str());
        let kept = without_own(&entries);
        out.put_section(name.as_str(), kept);
        proof {
            assert(now =~= was.push(name@));
            assert(now[i as int] == name@);
            assert forall|s: Seq<char>| #[trigger] entries_of(out@, s) == written_entries(
                start,
                now,
                none,
                s,
            ) by {
                assert(entries_of(before, s) == written_entries(start, was, none, s));
                if was.contains(s) {
                    let j = choose|j: int| 0 <= j < was.len() && was[j] == s;
                    assert(now[j] == s);
                }
                assert(entries_of(out@, s) =~= written_entries(start, now, none, s));
            }
        }
        i = i + 1;
    }
    assert(names.take(i as int) =~= names);
    out
}

proof fn lemma_found_for_bound(findings: Seq<FindingView>, section: Seq<char>, key: Seq<char>)
    ensures
        found_for(findings, section, key) <= findings.len(),
    decreases findings.len(),
{
    if findings.len() > 0 {
        lemma_found_for_bound(findings.drop_last(), section, key);
    }
}

/// The document with each finding counted.
fn counted(
    doc: Doc,
    sections: &TextSet,
    unused: &Vec<Finding>,
    Ghost(start): Ghost<Map<Seq<char>, Map<Seq<char>, u64>>>,
) -> (out: Doc)
    requires
        doc.wf(),
        sections.wf(),
        in_sections(viewed(unused@), sections.listed()),
        forall|s: Seq<char>| #[trigger]
            entries_of(doc@, s) == written_entries(start, sections.listed(), Seq::empty(), s),
    ensures
        out.wf(),
        forall|s: Seq<char>| #[trigger]
            entries_of(out@, s) == written_entries(start, sections.listed(), viewed(unused@), s),
{
    let ghost names = sections.listed();
    let ghost all = viewed(unused@);
    let mut out = doc;
    let mut i: usize = 0;
    assert(all.take(0) =~= Seq::<FindingView>::empty());
    while i < unused.len()
        invariant
            names == sections.listed(),
            all == viewed(unused@),
            in_sections(all, names),
            i <= unused@.len(),
            out.wf(),
            forall|s: Seq<char>| #[trigger]
                entries_of(out@, s) == written_entries(start, names, all.take(i as int), s),
        decreases unused@.len() - i,
    {
        let finding = &unused[i];
        let ghost before = out@;
        let ghost was = all.take(i as int);
        let ghost now = all.take(i + 1);
        let key = entry(LINT, finding.def.file.as_str());
        let mut entries = out.take_section(finding.section.as_str());
        proof {
            assert(now.drop_last() =~= was);
            assert(now.last() == finding@ && all[i as int] == finding@);
            lemma_found_for_bound(was, finding@.section, key@);
            assert(key@.take((LINT@ + ":"@).len() as int) =~= LINT@ + ":"@);
            assert(is_own(key@));
            assert(entries_of(before, finding@.section) == written_entries(
                start,
                names,
                was,
                finding@.section,
            ));
        }
        let n: u64 = match entries.get(key.as_str()) {
            Some(n) => *n,
            None => 0,
        };
        assert(n == found_for(was, finding@.section, key@));
        entries.put(key.as_str(), n + 1);
        out.put_section(finding.section.as_str(), entries);
        proof {
            assert forall|s: Seq<char>| #[trigger] entries_of(out@, s) == written_entries(
                start,
                names,
                now,
                s,
            ) by {
                assert(entries_of(before, s) == written_entries(start, names, was, s));
                assert forall|k: Seq<char>| k != key@ || s != finding@.section implies
                    #[trigger] found_for(now, s, k) == found_for(was, s, k) by {}
                assert(found_for(now, finding@.section, key@) == n + 1);
                assert(entries_of(out@, s) =~= written_entries(start, names, now, s));
            }
        }
        i = i + 1;
    }
    assert(all.take(i as int) =~= all);
    out
}

/// The document without its sections without entries.
fn without_empty(doc: Doc) -> (out: Doc)
    requires
        doc.wf(),
    ensures
        out.wf(),
        forall|s: Seq<char>| #[trigger]
            out@.dom().contains(s) <==> has_any(entries_of(doc@, s)),
        forall|s: Seq<char>| #[trigger] out@.dom().contains(s) ==> out@[s] == doc@[s],
{
    let ghost start = doc@;
    let names = doc.section_names();
    let ghost all = views(names@);
    let mut out = doc;
    let mut i: usize = 0;
    while i < names.len()
        invariant
            start == doc@,
            all == views(names@),
            i <= names@.len(),
            out.wf(),
            forall|s: Seq<char>| #[trigger]
                out@.dom().contains(s) <==> start.dom().contains(s) && (all.take(i as int).contains(s)
                    ==> has_any(start[s])),
            forall|s: Seq<char>| #[trigger] out@.dom().contains(s) ==> out@[s] == start[s],
        decreases names@.len() - i,
    {
        let ghost before = out@;
        let ghost was = all.take(i as int);
        let ghost now = all.take(i + 1);
        let name = names[i].as_str();
        proof {
            assert(now =~= was.push(name@));
            assert(now[i as int] == name@);
            assert forall|s: Seq<char>| #[trigger]
                now.contains(s) <==> was.contains(s) || s == name@ by {
                if was.contains(s) {
                    let j = choose|j: int| 0 <= j < was.len() && was[j] == s;
                    assert(now[j] == s);
                }
            }
        }
        let entries = out.take_section(name);
        let n = entries.len();
        proof {
            lemma_listed(entries.keys(), entries.values());
            if n > 0 {
                assert(entries@.dom().contains(entries.keys()[0]));
                assert(has_any(entries@));
            } else if has_any(entries@) {
                let k = choose|k: Seq<char>| #[trigger] entries@.dom().contains(k);
                assert(entries.keys().contains(k));
            }
            assert((n > 0) == has_any(entries@));
        }
        if n > 0 {
            out.put_section(name, entries);
        }
        proof {
            assert forall|s: Seq<char>| #[trigger]
                out@.dom().contains(s) <==> start.dom().contains(s) && (now.contains(s) ==> has_any(
                    start[s],
                )) by {
                assert(before.dom().contains(s) <==> start.dom().contains(s) && (was.contains(s)
                    ==> has_any(start[s])));
            }
        }
        i = i + 1;
    }
    proof {
        assert(all.take(i as int) =~= all);
        assert forall|s: Seq<char>| #[trigger]
            out@.dom().contains(s) <==> has_any(entries_of(start, s)) by {
            assert(all.contains(s) <==> start.dom().contains(s));
        }
    }
    out
}

/// The document with the run's findings in place of this lint's entries in
/// the sections that the run judged.
pub fn rewritten(doc: Doc, sections: &TextSet, unused: &Vec<Finding>) -> (out: Doc)
    requires
        doc.wf(),
        sections.wf(),
        in_sections(viewed(unused@), sections.listed()),
    ensures
        out.wf(),
        out@ == written(doc@, sections.listed(), viewed(unused@)),
{
    let ghost start = doc@;
    let doc = cleared(doc, sections);
    let doc = counted(doc, sections, unused, Ghost(start));
    let ghost full = doc@;
    let out = without_empty(doc);
    proof {
        let want = written(start, sections.listed(), viewed(unused@));
        assert forall|s: Seq<char>| #[trigger] out@.dom().contains(s) == want.dom().contains(s) by {
            assert(entries_of(full, s) == written_entries(
                start,
                sections.listed(),
                viewed(unused@),
                s,
            ));
        }
        assert forall|s: Seq<char>| #[trigger] out@.dom().contains(s) implies out@[s] == want[s] by {
            assert(entries_of(full, s) == written_entries(
                start,
                sections.listed(),
                viewed(unused@),
                s,
            ));
            assert(has_any(entries_of(full, s)));
        }
        assert(out@ =~= want);
    }
    out
}

/// The baseline text that holds `existing` now, with this lint's entries in
/// the sections that the run judged rewritten, and every other entry left as
/// it is.
pub fn write(existing: &str, sections: &TextSet, unused: &Vec<Finding>) -> (text: String)
    requires
        sections.wf(),
        in_sections(viewed(unused@), sections.listed()),
    ensures
        text@ == counts_toml(
            written(doc_read(existing@), sections.listed(), viewed(unused@)),
        ),
        doc_read(text@) == written(doc_read(existing@), sections.listed(), viewed(unused@)),
{
    let edit = |doc: Doc| -> (out: Doc)
        requires
            doc.wf(),
            sections.wf(),
            in_sections(viewed(unused@), sections.listed()),
        ensures
            out.wf(),
            out@ == written(doc@, sections.listed(), viewed(unused@)),
        {
            rewritten(doc, sections, unused)
        };
    update(existing, edit)
}

/// What the run's findings are held to.
pub enum Baseline {
    /// No baseline is configured, or none is found.
    Unset,
    /// The run writes the baseline, which holds `existing` now.
    Write { path: String, existing: String },
    /// The run is held to these counts.
    Held(Recorded),
}

/// Finds the baseline that the configuration names, if it names one. `present`
/// holds the paths that exist, and `files` the text of the baseline; one that
/// cannot be read holds nothing. `None` if the run is held to a baseline with
/// a total past what can be counted.
pub fn baseline_for(
    root: &str,
    name: Option<&str>,
    record: bool,
    present: &TextSet,
    files: &Files,
) -> (baseline: Option<Baseline>)
    requires
        present.wf(),
        files.wf(),
    ensures
        ({
            let found = match name {
                Some(name) => found_from(root@, name@, record, present.listed()),
                None => None,
            };
            let held = match found {
                Some((_, path)) => match text_at(files@, path) {
                    Some(text) => text,
                    None => Seq::empty(),
                },
                None => Seq::empty(),
            };
            match baseline {
                Some(Baseline::Unset) => found is None,
                Some(Baseline::Write { path, existing }) => record && (found matches Some((_, at))
                    && path@ == at) && existing@ == held,
                Some(Baseline::Held(recorded)) => {
                    &&& !record && found is Some
                    &&& recorded.wf()
                    &&& totals_fit(doc_read(held))
                    &&& forall|lint: Seq<char>, file: Seq<char>| #[trigger]
                        recorded.count(lint, file) == recorded_count(doc_read(held), lint, file)
                },
                None => !record && found is Some && !totals_fit(doc_read(held)),
            }
        }),
{
    let found = match name {
        Some(name) => find(root, name, record, present),
        None => None,
    };
    match found {
        Some((_, path)) => {
            let held = match files.read(path.as_str()) {
                Some(text) => text.clone(),
                None => String::new(),
            };
            assert(text_at(files@, path@) is None ==> held@ =~= Seq::<char>::empty());
            if record {
                Some(Baseline::Write { path, existing: held })
            } else {
                match recorded(held.as_str()) {
                    Some(recorded) => Some(Baseline::Held(recorded)),
                    None => None,
                }
            }
        },
        None => Some(Baseline::Unset),
    }
}

/// How many of the findings are in `file`.
pub open spec fn found_in(findings: Seq<FindingView>, file: Seq<char>) -> nat
    decreases findings.len(),
{
    if findings.len() == 0 {
        0
    } else {
        found_in(findings.drop_last(), file) + if findings.last().def.file == file {
            1nat
        } else {
            0nat
        }
    }
}

/// How many findings the recorded counts allow in a file.
pub open spec fn limit_of(recorded: &Recorded) -> spec_fn(Seq<char>) -> nat {
    |file: Seq<char>|
        match recorded.count(LINT@, file) {
            Some(count) => count,
            None => 0,
        }
}

/// The baseline's note under a finding that is over the recorded count.
pub open spec fn over_note(limit: nat, file: Seq<char>) -> Seq<char> {
    "`"@ + LINT@ + "` over the mordant baseline ("@ + decimal(limit) + " recorded for "@ + file
        + ")"@
}

/// Whether a file has more findings than are allowed.
pub open spec fn is_over(
    findings: Seq<FindingView>,
    allowed: spec_fn(Seq<char>) -> nat,
    file: Seq<char>,
) -> bool {
    found_in(findings, file) > allowed(file)
}

/// The messages for the first `n` findings: a file over its count shows every
/// finding, since the count does not say which of them is the new one, and
/// any other file shows none.
pub open spec fn shown(
    sources: Map<Seq<char>, Seq<char>>,
    root: Seq<char>,
    findings: Seq<FindingView>,
    allowed: spec_fn(Seq<char>) -> nat,
    fallback: Option<int>,
    n: int,
) -> Seq<MessageView>
    decreases n,
{
    if n <= 0 {
        Seq::empty()
    } else {
        let before = shown(sources, root, findings, allowed, fallback, n - 1);
        let finding = findings[n - 1];
        let file = finding.def.file;
        if is_over(findings, allowed, file) {
            before.push(
                finding_message(
                    sources,
                    root,
                    finding,
                    Severity::Warning,
                    Some(over_note(allowed(file), file)),
                    fallback,
                ),
            )
        } else {
            before
        }
    }
}

/// The files over their count, in the order of their first findings.
pub open spec fn files_over(
    findings: Seq<FindingView>,
    allowed: spec_fn(Seq<char>) -> nat,
    n: int,
) -> Seq<Seq<char>>
    decreases n,
{
    if n <= 0 {
        Seq::empty()
    } else {
        let before = files_over(findings, allowed, n - 1);
        let file = findings[n - 1].def.file;
        if is_over(findings, allowed, file) && !before.contains(file) {
            before.push(file)
        } else {
            before
        }
    }
}

/// Whether the `n`th finding, counted from zero, is past the count that its
/// file is allowed.
pub open spec fn is_past(
    findings: Seq<FindingView>,
    allowed: spec_fn(Seq<char>) -> nat,
    n: int,
) -> bool {
    found_in(findings.take(n + 1), findings[n].def.file) > allowed(findings[n].def.file)
}

pub open spec fn has_line(lines: Seq<LineView>, section: Seq<char>) -> bool {
    exists|i: int| 0 <= i < lines.len() && (#[trigger] lines[i]).section == section
}

/// The lines with one more finding over in `section`.
pub open spec fn one_more(lines: Seq<LineView>, section: Seq<char>) -> Seq<LineView> {
    if has_line(lines, section) {
        lines.map_values(
            |line: LineView|
                if line.section == section {
                    LineView { section, count: line.count + 1 }
                } else {
                    line
                },
        )
    } else {
        lines.push(LineView { section, count: 1 })
    }
}

/// A line for each section with findings past the count: those are the
/// section's to answer for. A file that two targets share has findings under
/// two sections.
pub open spec fn lines_over(
    findings: Seq<FindingView>,
    allowed: spec_fn(Seq<char>) -> nat,
    n: int,
) -> Seq<LineView>
    decreases n,
{
    if n <= 0 {
        Seq::empty()
    } else {
        let before = lines_over(findings, allowed, n - 1);
        if is_past(findings, allowed, n - 1) {
            one_more(before, findings[n - 1].section)
        } else {
            before
        }
    }
}

/// What a run that is held to the baseline says, but for the closing count:
/// the findings, a warning for each file and a warning for each section.
pub open spec fn held_messages(
    sources: Map<Seq<char>, Seq<char>>,
    root: Seq<char>,
    findings: Seq<FindingView>,
    allowed: spec_fn(Seq<char>) -> nat,
    fallback: Option<int>,
) -> Seq<MessageView> {
    let n = findings.len() as int;
    shown(sources, root, findings, allowed, fallback, n) + files_over(
        findings,
        allowed,
        n,
    ).map_values(
        |file: Seq<char>|
            plain_message(
                Severity::Warning,
                over_words(LINT@, file, found_in(findings, file), allowed(file)),
                fallback,
            ),
    ) + lines_over(findings, allowed, n).map_values(
        |line: LineView| plain_message(Severity::Warning, line.summary(), fallback),
    )
}

/// What a run without a baseline says, but for the closing count.
pub open spec fn free_messages(
    sources: Map<Seq<char>, Seq<char>>,
    root: Seq<char>,
    findings: Seq<FindingView>,
    fallback: Option<int>,
) -> Seq<MessageView> {
    findings.map_values(
        |finding: FindingView|
            finding_message(
                sources,
                root,
                finding,
                severity_of(finding.def.level),
                None,
                fallback,
            ),
    )
}

/// The crate roots, from the workspace root, each once and in backticks.
pub open spec fn roots_named(root: Seq<char>, srcs: Seq<Seq<char>>) -> Seq<Seq<char>>
    decreases srcs.len(),
{
    if srcs.len() == 0 {
        Seq::empty()
    } else {
        let before = roots_named(root, srcs.drop_last());
        let name = "`"@ + from_root(srcs.last(), root) + "`"@;
        if before.contains(name) {
            before
        } else {
            before.push(name)
        }
    }
}

/// The directory above `path`, or `path` if there is none.
pub open spec fn above(path: Seq<char>) -> Seq<char> {
    match directory(path) {
        Some(dir) => dir,
        None => path,
    }
}

/// What is said when units left no record.
pub open spec fn missing_words(
    root: Seq<char>,
    facts: Seq<char>,
    srcs: Seq<Seq<char>>,
) -> Seq<char> {
    "mordant: `unused_pub` did not judge the workspace: "@ + listed_in_words(
        roots_named(root, srcs),
    ) + " left no record of what it uses; remove `"@ + above(facts)
        + "`, which holds those records and the build `cargo mordant` reuses, then run again"@
}

/// The crate roots, from the workspace root, each once and in backticks.
pub fn named_roots(root: &str, srcs: &Vec<String>) -> (named: Vec<String>)
    ensures
        views(named@) == roots_named(root@, views(srcs@)),
{
    let ghost all = views(srcs@);
    let mut named: Vec<String> = Vec::new();
    let mut i: usize = 0;
    assert(views(named@) =~= roots_named(root@, all.take(0)));
    while i < srcs.len()
        invariant
            all == views(srcs@),
            i <= srcs@.len(),
            views(named@) == roots_named(root@, all.take(i as int)),
        decreases srcs@.len() - i,
    {
        let ghost before = views(named@);
        assert(all.take(i + 1).drop_last() =~= all.take(i as int));
        assert(all.take(i + 1).last() == srcs@[i as int]@);
        let path = path_from_root(srcs[i].as_str(), root);
        let name = "`".to_owned().concat(path.as_str()).concat("`");
        if !contains(&named, name.as_str()) {
            named.push(name);
            assert(views(named@) =~= before.push(name@));
        }
        i = i + 1;
    }
    assert(all.take(i as int) =~= all);
    named
}

/// The directory above `path`, or `path` if there is none.
pub fn directory_above(path: &str) -> (dir: String)
    ensures
        dir@ == above(path@),
{
    match directory_of(path) {
        Some(dir) => dir,
        None => path.to_owned(),
    }
}

/// The run's `unused_pub` findings as they are reported.
pub struct Report {
    pub messages: Vec<Message>,
    /// Whether any finding was an error.
    pub errors: bool,
    /// A line for `over-baseline.txt` for each section whose findings are
    /// over its baseline count.
    pub lines: Vec<OverBaselineLine>,
    /// The new text of the baseline, when the run writes it.
    pub baseline: Option<String>,
}

/// How many of the first findings are in each file.
fn counts_by_file(findings: &Vec<Finding>) -> (counts: TextMap<usize>)
    ensures
        counts.wf(),
        forall|file: Seq<char>| #[trigger]
            counts@.dom().contains(file) ==> counts@[file] == found_in(viewed(findings@), file),
        forall|file: Seq<char>| #[trigger]
            counts@.dom().contains(file) <==> found_in(viewed(findings@), file) > 0,
{
    let ghost all = viewed(findings@);
    let mut counts: TextMap<usize> = TextMap::new();
    let mut i: usize = 0;
    assert(all.take(0) =~= Seq::<FindingView>::empty());
    while i < findings.len()
        invariant
            all == viewed(findings@),
            i <= findings@.len(),
            counts.wf(),
            forall|file: Seq<char>| #[trigger]
                counts@.dom().contains(file) ==> counts@[file] == found_in(
                    all.take(i as int),
                    file,
                ),
            forall|file: Seq<char>| #[trigger]
                counts@.dom().contains(file) <==> found_in(all.take(i as int), file) > 0,
        decreases findings@.len() - i,
    {
        let ghost before = counts@;
        bump_file(&mut counts, findings[i].def.file.as_str(), Ghost(all.take(i as int)));
        proof {
            assert(all.take(i + 1).drop_last() =~= all.take(i as int));
            assert(all.take(i + 1).last() == findings@[i as int]@);
        }
        i = i + 1;
    }
    assert(all.take(i as int) =~= all);
    counts
}

proof fn lemma_found_in_bound(findings: Seq<FindingView>, file: Seq<char>)
    ensures
        found_in(findings, file) <= findings.len(),
    decreases findings.len(),
{
    if findings.len() > 0 {
        lemma_found_in_bound(findings.drop_last(), file);
    }
}

/// Counts one more finding in `file`, behind `before`; how many there are.
fn bump_file(
    counts: &mut TextMap<usize>,
    file: &str,
    Ghost(before): Ghost<Seq<FindingView>>,
) -> (n: usize)
    requires
        old(counts).wf(),
        before.len() < usize::MAX,
        forall|file: Seq<char>| #[trigger]
            old(counts)@.dom().contains(file) ==> old(counts)@[file] == found_in(before, file),
        forall|file: Seq<char>| #[trigger]
            old(counts)@.dom().contains(file) <==> found_in(before, file) > 0,
    ensures
        final(counts).wf(),
        n == found_in(before, file@) + 1,
        final(counts)@ == old(counts)@.insert(file@, n),
{
    proof {
        lemma_found_in_bound(before, file@);
    }
    let n: usize = match counts.get(file) {
        Some(n) => *n,
        None => 0,
    };
    counts.put(file, n + 1);
    n + 1
}

/// Counts one more finding over in `section`.
fn add_line(lines: &mut Vec<OverBaselineLine>, section: &str)
    requires
        forall|i: int| 0 <= i < old(lines)@.len() ==> (#[trigger] old(lines)@[i]).count < usize::MAX,
    ensures
        viewed(final(lines)@) == one_more(viewed(old(lines)@), section@),
{
    let ghost before = viewed(lines@);
    let ghost want = before.map_values(
        |line: LineView|
            if line.section == section@ {
                LineView { section: section@, count: line.count + 1 }
            } else {
                line
            },
    );
    let mut found = false;
    let mut i: usize = 0;
    while i < lines.len()
        invariant
            i <= lines@.len(),
            lines@.len() == old(lines)@.len(),
            before == viewed(old(lines)@),
            want.len() == lines@.len(),
            want == before.map_values(
                |line: LineView|
                    if line.section == section@ {
                        LineView { section: section@, count: line.count + 1 }
                    } else {
                        line
                    },
            ),
            forall|j: int|
                0 <= j < old(lines)@.len() ==> (#[trigger] old(lines)@[j]).count < usize::MAX,
            forall|j: int| i <= j < lines@.len() ==> #[trigger] lines@[j] == old(lines)@[j],
            forall|j: int| 0 <= j < i ==> #[trigger] lines@[j]@ == want[j],
            found == has_line(before.take(i as int), section@),
        decreases lines@.len() - i,
    {
        let ghost was = before.take(i as int);
        let ghost now = before.take(i + 1);
        assert(lines@[i as int] == old(lines)@[i as int]);
        assert(now[i as int] == lines@[i as int]@);
        let hit = same(lines[i].section.as_str(), section);
        proof {
            if has_line(was, section@) {
                let k = choose|k: int| 0 <= k < was.len() && (#[trigger] was[k]).section == section@;
                assert(now[k] == was[k]);
            }
            if has_line(now, section@) && !hit {
                let k = choose|k: int| 0 <= k < now.len() && (#[trigger] now[k]).section == section@;
                assert(was[k] == now[k]);
            }
        }
        if hit {
            let line = OverBaselineLine::new(section, lines[i].count + 1);
            lines.set(i, line);
            found = true;
        }
        i = i + 1;
    }
    assert(before.take(i as int) =~= before);
    if found {
        assert(viewed(lines@) =~= want);
    } else {
        assert(viewed(lines@) =~= before) by {
            assert forall|j: int| 0 <= j < before.len() implies want[j] == before[j] by {}
        }
        let line = OverBaselineLine::new(section, 1);
        lines.push(line);
        assert(viewed(lines@) =~= before.push(line@));
    }
}

/// Whether the report on judged findings is `report`, for what they are held
/// to.
pub open spec fn is_report_on(
    report: Report,
    sources: Map<Seq<char>, Seq<char>>,
    root: Seq<char>,
    findings: Seq<FindingView>,
    sections: Seq<Seq<char>>,
    output: OutputView,
    fallback: Option<int>,
    baseline: Baseline,
) -> bool {
    match baseline {
        Baseline::Write { existing, .. } => {
            &&& report.messages@.len() == 0
            &&& !report.errors
            &&& report.lines@.len() == 0
            &&& report.baseline is Some
            &&& report.baseline->0@ == counts_toml(written(doc_read(existing@), sections, findings))
            &&& doc_read(report.baseline->0@) == written(doc_read(existing@), sections, findings)
        },
        Baseline::Held(recorded) => {
            let said = held_messages(sources, root, findings, limit_of(&recorded), fallback);
            &&& viewed(report.messages@) == said + closing_count(
                output,
                tallied(said, Severity::Error),
                tallied(said, Severity::Warning),
            )
            &&& report.errors == (tallied(said, Severity::Error) > 0)
            &&& viewed(report.lines@) == lines_over(
                findings,
                limit_of(&recorded),
                findings.len() as int,
            )
            &&& report.baseline is None
        },
        Baseline::Unset => {
            let said = free_messages(sources, root, findings, fallback);
            &&& viewed(report.messages@) == said + closing_count(
                output,
                tallied(said, Severity::Error),
                tallied(said, Severity::Warning),
            )
            &&& report.errors == (tallied(said, Severity::Error) > 0)
            &&& report.lines@.len() == 0
            &&& report.baseline is None
        },
    }
}

/// Reports the findings without a baseline.
fn report_free(printer: Printer<'_>, unused: &Vec<Finding>, output: &Output) -> (report: Report)
    requires
        printer.wf(),
        printer.said().len() == 0,
    ensures
        is_report_on(
            report,
            printer.sources(),
            printer.root(),
            viewed(unused@),
            Seq::empty(),
            output@,
            printer.fallback(),
            Baseline::Unset,
        ),
{
    let ghost want = free_messages(
        printer.sources(),
        printer.root(),
        viewed(unused@),
        printer.fallback(),
    );
    let ghost start = printer;
    let mut printer = printer;
    let mut i: usize = 0;
    assert(printer.said() =~= want.take(0));
    while i < unused.len()
        invariant
            i <= unused@.len(),
            printer.wf(),
            printer.same_settings(&start),
            want == free_messages(
                start.sources(),
                start.root(),
                viewed(unused@),
                start.fallback(),
            ),
            printer.said() == want.take(i as int),
        decreases unused@.len() - i,
    {
        let severity = Severity::of(unused[i].def.level.as_str());
        printer.finding(&unused[i], severity, None);
        assert(viewed(unused@)[i as int] == unused@[i as int]@);
        assert(want.take(i + 1) =~= want.take(i as int).push(want[i as int]));
        i = i + 1;
    }
    assert(want.take(i as int) =~= want);
    let (messages, errors) = printer.tally(output);
    Report { messages, errors, lines: Vec::new(), baseline: None }
}

/// Shows the findings of the files that are over their count. Gives those
/// files, and the lines for the sections.
fn show_held(
    printer: &mut Printer<'_>,
    unused: &Vec<Finding>,
    recorded: &Recorded,
    found: &TextMap<usize>,
) -> (r: (Vec<String>, Vec<OverBaselineLine>))
    requires
        old(printer).wf(),
        old(printer).said().len() == 0,
        recorded.wf(),
        found.wf(),
        forall|file: Seq<char>| #[trigger]
            found@.dom().contains(file) ==> found@[file] == found_in(viewed(unused@), file),
        forall|file: Seq<char>| #[trigger]
            found@.dom().contains(file) <==> found_in(viewed(unused@), file) > 0,
    ensures
        final(printer).wf(),
        final(printer).same_settings(old(printer)),
        final(printer).said() == shown(
            old(printer).sources(),
            old(printer).root(),
            viewed(unused@),
            limit_of(recorded),
            old(printer).fallback(),
            unused@.len() as int,
        ),
        views(r.0@) == files_over(viewed(unused@), limit_of(recorded), unused@.len() as int),
        viewed(r.1@) == lines_over(viewed(unused@), limit_of(recorded), unused@.len() as int),
{
    let ghost all = viewed(unused@);
    let ghost allowed = limit_of(recorded);
    let ghost sources = printer.sources();
    let ghost root = printer.root();
    let ghost fallback = printer.fallback();
    let mut seen: TextMap<usize> = TextMap::new();
    let mut files: Vec<String> = Vec::new();
    let mut lines: Vec<OverBaselineLine> = Vec::new();
    let mut i: usize = 0;
    assert(all.take(0) =~= Seq::<FindingView>::empty());
    assert(views(files@) =~= files_over(all, allowed, 0));
    assert(viewed(lines@) =~= lines_over(all, allowed, 0));
    assert(printer.said() =~= Seq::<MessageView>::empty());
    while i < unused.len()
        invariant
            i <= unused@.len(),
            all == viewed(unused@),
            allowed == limit_of(recorded),
            recorded.wf(),
            found.wf(),
            forall|file: Seq<char>| #[trigger]
                found@.dom().contains(file) ==> found@[file] == found_in(all, file),
            forall|file: Seq<char>| #[trigger]
                found@.dom().contains(file) <==> found_in(all, file) > 0,
            seen.wf(),
            forall|file: Seq<char>| #[trigger]
                seen@.dom().contains(file) ==> seen@[file] == found_in(all.take(i as int), file),
            forall|file: Seq<char>| #[trigger]
                seen@.dom().contains(file) <==> found_in(all.take(i as int), file) > 0,
            printer.wf(),
            printer.same_settings(old(printer)),
            sources == old(printer).sources(),
            root == old(printer).root(),
            fallback == old(printer).fallback(),
            printer.said() == shown(sources, root, all, allowed, fallback, i as int),
            printer.said().len() <= i,
            views(files@) == files_over(all, allowed, i as int),
            viewed(lines@) == lines_over(all, allowed, i as int),
            forall|j: int| 0 <= j < lines@.len() ==> (#[trigger] lines@[j]).count <= i,
        decreases unused@.len() - i,
    {
        let finding = &unused[i];
        let file = finding.def.file.as_str();
        let ghost was = all.take(i as int);
        let ghost now = all.take(i + 1);
        proof {
            assert(now.drop_last() =~= was);
            assert(now.last() == finding@ && all[i as int] == finding@);
            lemma_found_in_grows(all, i + 1, file@);
        }
        let limit: usize = match recorded.get(LINT, file) {
            Some(count) => count,
            None => 0,
        };
        assert(limit == allowed(file@));
        let n = bump_file(&mut seen, file, Ghost(was));
        let total: usize = match found.get(file) {
            Some(total) => *total,
            None => 0,
        };
        assert(total == found_in(all, file@));
        let ghost files_before = views(files@);
        let ghost lines_before = lines@;
        if n > limit {
            assert forall|j: int| 0 <= j < lines@.len() implies (#[trigger] lines@[j]).count
                < usize::MAX by {}
            add_line(&mut lines, finding.section.as_str());
            assert forall|j: int| 0 <= j < lines@.len() implies (#[trigger] lines@[j]).count <= i
                + 1 by {
                let next = one_more(viewed(lines_before), finding.section@);
                assert(viewed(lines@)[j] == lines@[j]@);
                assert(lines@[j]@ == next[j]);
                if j < lines_before.len() {
                    assert(viewed(lines_before)[j] == lines_before[j]@);
                    assert(lines_before[j].count <= i);
                    assert(next[j].count <= viewed(lines_before)[j].count + 1);
                } else {
                    assert(next.len() == lines@.len());
                    assert(next[j].count == 1);
                }
                assert(lines@[j]@.count == lines@[j].count);
            }
        }
        if total > limit {
            if !contains(&files, file) {
                files.push(finding.def.file.clone());
                assert(views(files@) =~= files_before.push(file@));
            }
            let count = count_text(limit);
            let note = "`".to_owned().concat(LINT).concat("` over the mordant baseline (").concat(
                count.as_str(),
            ).concat(" recorded for ").concat(file).concat(")");
            printer.finding(finding, Severity::Warning, Some(note));
        }
        i = i + 1;
    }
    (files, lines)
}

proof fn lemma_found_in_grows(findings: Seq<FindingView>, n: int, file: Seq<char>)
    requires
        0 <= n <= findings.len(),
    ensures
        found_in(findings.take(n), file) <= found_in(findings, file),
    decreases findings.len() - n,
{
    if n < findings.len() {
        lemma_found_in_grows(findings, n + 1, file);
        assert(findings.take(n + 1).drop_last() =~= findings.take(n));
    } else {
        assert(findings.take(n) =~= findings);
    }
}

proof fn lemma_files_over(
    findings: Seq<FindingView>,
    allowed: spec_fn(Seq<char>) -> nat,
    n: int,
)
    requires
        n <= findings.len(),
    ensures
        files_over(findings, allowed, n).len() <= if n > 0 {
            n
        } else {
            0
        },
        lines_over(findings, allowed, n).len() <= if n > 0 {
            n
        } else {
            0
        },
        forall|i: int|
            0 <= i < files_over(findings, allowed, n).len() ==> is_over(
                findings,
                allowed,
                #[trigger] files_over(findings, allowed, n)[i],
            ),
    decreases n,
{
    if n > 0 {
        lemma_files_over(findings, allowed, n - 1);
    }
}

/// Reports the findings that are over the recorded counts.
fn report_held(
    printer: Printer<'_>,
    unused: &Vec<Finding>,
    output: &Output,
    recorded: &Recorded,
) -> (report: Report)
    requires
        printer.wf(),
        printer.said().len() == 0,
        recorded.wf(),
    ensures
        is_report_on(
            report,
            printer.sources(),
            printer.root(),
            viewed(unused@),
            Seq::empty(),
            output@,
            printer.fallback(),
            Baseline::Held(*recorded),
        ),
{
    let ghost all = viewed(unused@);
    let ghost allowed = limit_of(recorded);
    let ghost start = printer;
    let ghost n = all.len() as int;
    let mut printer = printer;
    let found = counts_by_file(unused);
    let (files, lines) = show_held(&mut printer, unused, recorded, &found);
    let ghost part = printer.said();
    let ghost by_file = files_over(all, allowed, n).map_values(
        |file: Seq<char>|
            plain_message(
                Severity::Warning,
                over_words(LINT@, file, found_in(all, file), allowed(file)),
                start.fallback(),
            ),
    );
    let mut i: usize = 0;
    assert(part + by_file.take(0) =~= part);
    while i < files.len()
        invariant
            all == viewed(unused@),
            allowed == limit_of(recorded),
            n == all.len(),
            recorded.wf(),
            found.wf(),
            forall|file: Seq<char>| #[trigger]
                found@.dom().contains(file) ==> found@[file] == found_in(all, file),
            forall|file: Seq<char>| #[trigger]
                found@.dom().contains(file) <==> found_in(all, file) > 0,
            i <= files@.len(),
            views(files@) == files_over(all, allowed, n),
            by_file == files_over(all, allowed, n).map_values(
                |file: Seq<char>|
                    plain_message(
                        Severity::Warning,
                        over_words(LINT@, file, found_in(all, file), allowed(file)),
                        start.fallback(),
                    ),
            ),
            printer.wf(),
            printer.same_settings(&start),
            printer.said() == part + by_file.take(i as int),
        decreases files@.len() - i,
    {
        let file = files[i].as_str();
        proof {
            lemma_files_over(all, allowed, n);
            assert(views(files@)[i as int] == file@);
            assert(is_over(all, allowed, files_over(all, allowed, n)[i as int]));
        }
        let limit: usize = match recorded.get(LINT, file) {
            Some(count) => count,
            None => 0,
        };
        assert(limit == allowed(file@));
        let total: usize = match found.get(file) {
            Some(total) => *total,
            None => 0,
        };
        assert(total == found_in(all, file@));
        printer.plain(Severity::Warning, over_message(LINT, file, total, limit));
        assert(by_file.take(i + 1) =~= by_file.take(i as int).push(by_file[i as int]));
        assert((part + by_file.take(i as int)).push(by_file[i as int]) =~= part + by_file.take(
            i + 1,
        ));
        i = i + 1;
    }
    assert(by_file.take(i as int) =~= by_file);
    let ghost part = printer.said();
    let ghost by_line = lines_over(all, allowed, n).map_values(
        |line: LineView| plain_message(Severity::Warning, line.summary(), start.fallback()),
    );
    let mut j: usize = 0;
    assert(part + by_line.take(0) =~= part);
    while j < lines.len()
        invariant
            j <= lines@.len(),
            viewed(lines@) == lines_over(all, allowed, n),
            by_line == lines_over(all, allowed, n).map_values(
                |line: LineView| plain_message(Severity::Warning, line.summary(), start.fallback()),
            ),
            printer.wf(),
            printer.same_settings(&start),
            printer.said() == part + by_line.take(j as int),
        decreases lines@.len() - j,
    {
        assert(viewed(lines@)[j as int] == lines@[j as int]@);
        printer.plain(Severity::Warning, lines[j].summary());
        assert(by_line.take(j + 1) =~= by_line.take(j as int).push(by_line[j as int]));
        assert((part + by_line.take(j as int)).push(by_line[j as int]) =~= part + by_line.take(
            j + 1,
        ));
        j = j + 1;
    }
    assert(by_line.take(j as int) =~= by_line);
    let (messages, errors) = printer.tally(output);
    Report { messages, errors, lines, baseline: None }
}

/// Reports what the run's records say. `sources` holds the text of the source
/// files, and `units` is how many units the run has.
pub fn report(
    root: &str,
    facts: &str,
    units: usize,
    records: &Records,
    sources: &Files,
    output: &Output,
    baseline: &Baseline,
) -> (report: Report)
    requires
        sources.wf(),
        baseline matches Baseline::Held(recorded) ==> recorded.wf(),
        records.wf(),
    ensures
        match records {
            Records::Missing(srcs) => {
                &&& viewed(report.messages@) == seq![
                    plain_message(
                        Severity::Error,
                        missing_words(root@, facts@, views(srcs@)),
                        first_unit(units as nat),
                    ),
                ]
                &&& report.errors
                &&& report.lines@.len() == 0
                &&& report.baseline is None
            },
            Records::Judged { unused, sections } => is_report_on(
                report,
                sources@,
                root@,
                viewed(unused@),
                sections.listed(),
                output@,
                first_unit(units as nat),
                *baseline,
            ),
        },
{
    let mut printer = Printer::new(root, sources, units);
    match records {
        Records::Missing(srcs) => {
            // An error: a run that judged nothing must not pass for a run
            // that found nothing.
            let named = join(&named_roots(root, srcs));
            let dir = directory_above(facts);
            let message = "mordant: `unused_pub` did not judge the workspace: ".to_owned().concat(
                named.as_str(),
            ).concat(" left no record of what it uses; remove `").concat(dir.as_str()).concat(
                "`, which holds those records and the build `cargo mordant` reuses, then run again",
            );
            printer.plain(Severity::Error, message);
            let messages = printer.messages;
            assert(viewed(messages@) =~= seq![
                plain_message(
                    Severity::Error,
                    missing_words(root@, facts@, views(srcs@)),
                    first_unit(units as nat),
                ),
            ]);
            Report { messages, errors: true, lines: Vec::new(), baseline: None }
        },
        Records::Judged { unused, sections } => match baseline {
            Baseline::Write { existing, .. } => {
                let text = write(existing.as_str(), sections, unused);
                Report {
                    messages: Vec::new(),
                    errors: false,
                    lines: Vec::new(),
                    baseline: Some(text),
                }
            },
            Baseline::Held(recorded) => report_held(printer, unused, output, recorded),
            Baseline::Unset => report_free(printer, unused, output),
        },
    }
}

/// A run says nothing about a file until it has more findings than the
/// baseline allows: when no file has, nothing is said and no section is over.
pub proof fn within_the_baseline_nothing_is_said(
    sources: Map<Seq<char>, Seq<char>>,
    root: Seq<char>,
    findings: Seq<FindingView>,
    allowed: spec_fn(Seq<char>) -> nat,
    fallback: Option<int>,
)
    requires
        forall|i: int|
            0 <= i < findings.len() ==> !is_over(
                findings,
                allowed,
                (#[trigger] findings[i]).def.file,
            ),
    ensures
        held_messages(sources, root, findings, allowed, fallback).len() == 0,
        lines_over(findings, allowed, findings.len() as int).len() == 0,
{
    lemma_nothing_over(sources, root, findings, allowed, fallback, findings.len() as int);
}

proof fn lemma_nothing_over(
    sources: Map<Seq<char>, Seq<char>>,
    root: Seq<char>,
    findings: Seq<FindingView>,
    allowed: spec_fn(Seq<char>) -> nat,
    fallback: Option<int>,
    n: int,
)
    requires
        n <= findings.len(),
        forall|i: int|
            0 <= i < findings.len() ==> !is_over(
                findings,
                allowed,
                (#[trigger] findings[i]).def.file,
            ),
    ensures
        shown(sources, root, findings, allowed, fallback, n).len() == 0,
        files_over(findings, allowed, n).len() == 0,
        lines_over(findings, allowed, n).len() == 0,
    decreases n,
{
    if n > 0 {
        lemma_nothing_over(sources, root, findings, allowed, fallback, n - 1);
        assert(!is_over(findings, allowed, findings[n - 1].def.file));
        lemma_found_in_grows(findings, n, findings[n - 1].def.file);
    }
}

/// A file that goes over shows every finding in it, with the count that the
/// baseline allows.
pub proof fn a_file_over_shows_every_finding(
    sources: Map<Seq<char>, Seq<char>>,
    root: Seq<char>,
    findings: Seq<FindingView>,
    allowed: spec_fn(Seq<char>) -> nat,
    fallback: Option<int>,
    i: int,
)
    requires
        0 <= i < findings.len(),
        is_over(findings, allowed, findings[i].def.file),
    ensures
        held_messages(sources, root, findings, allowed, fallback).contains(
            finding_message(
                sources,
                root,
                findings[i],
                Severity::Warning,
                Some(over_note(allowed(findings[i].def.file), findings[i].def.file)),
                fallback,
            ),
        ),
{
    let n = findings.len() as int;
    lemma_shown(sources, root, findings, allowed, fallback, n, i);
    let part = shown(sources, root, findings, allowed, fallback, n);
    let message = finding_message(
        sources,
        root,
        findings[i],
        Severity::Warning,
        Some(over_note(allowed(findings[i].def.file), findings[i].def.file)),
        fallback,
    );
    let k = choose|k: int| 0 <= k < part.len() && part[k] == message;
    assert(held_messages(sources, root, findings, allowed, fallback)[k] == message);
}

proof fn lemma_shown(
    sources: Map<Seq<char>, Seq<char>>,
    root: Seq<char>,
    findings: Seq<FindingView>,
    allowed: spec_fn(Seq<char>) -> nat,
    fallback: Option<int>,
    n: int,
    i: int,
)
    requires
        0 <= i < n <= findings.len(),
        is_over(findings, allowed, findings[i].def.file),
    ensures
        shown(sources, root, findings, allowed, fallback, n).contains(
            finding_message(
                sources,
                root,
                findings[i],
                Severity::Warning,
                Some(over_note(allowed(findings[i].def.file), findings[i].def.file)),
                fallback,
            ),
        ),
    decreases n,
{
    let out = shown(sources, root, findings, allowed, fallback, n);
    let before = shown(sources, root, findings, allowed, fallback, n - 1);
    if i == n - 1 {
        assert(out[out.len() - 1] == out.last());
    } else {
        lemma_shown(sources, root, findings, allowed, fallback, n - 1, i);
        let message = finding_message(
            sources,
            root,
            findings[i],
            Severity::Warning,
            Some(over_note(allowed(findings[i].def.file), findings[i].def.file)),
            fallback,
        );
        let k = choose|k: int| 0 <= k < before.len() && before[k] == message;
        assert(out[k] == message);
    }
}

/// A run that is held to the baseline has no error among its findings,
/// whatever their level.
pub proof fn held_findings_are_warnings(
    sources: Map<Seq<char>, Seq<char>>,
    root: Seq<char>,
    findings: Seq<FindingView>,
    allowed: spec_fn(Seq<char>) -> nat,
    fallback: Option<int>,
)
    ensures
        tallied(
            held_messages(sources, root, findings, allowed, fallback),
            Severity::Error,
        ) == 0,
{
    let said = held_messages(sources, root, findings, allowed, fallback);
    let n = findings.len() as int;
    lemma_shown_are_warnings(sources, root, findings, allowed, fallback, n);
    let part = shown(sources, root, findings, allowed, fallback, n);
    assert forall|i: int| 0 <= i < said.len() implies (#[trigger] said[i]).severity
        == Severity::Warning by {
        if i < part.len() {
            assert(said[i] == part[i]);
        }
    }
    lemma_no_errors(said);
}

proof fn lemma_shown_are_warnings(
    sources: Map<Seq<char>, Seq<char>>,
    root: Seq<char>,
    findings: Seq<FindingView>,
    allowed: spec_fn(Seq<char>) -> nat,
    fallback: Option<int>,
    n: int,
)
    ensures
        forall|i: int|
            0 <= i < shown(sources, root, findings, allowed, fallback, n).len() ==> (
            #[trigger] shown(sources, root, findings, allowed, fallback, n)[i]).severity
                == Severity::Warning,
    decreases n,
{
    if n > 0 {
        lemma_shown_are_warnings(sources, root, findings, allowed, fallback, n - 1);
    }
}

proof fn lemma_no_errors(messages: Seq<MessageView>)
    requires
        forall|i: int|
            0 <= i < messages.len() ==> (#[trigger] messages[i]).severity == Severity::Warning,
    ensures
        tallied(messages, Severity::Error) == 0,
    decreases messages.len(),
{
    if messages.len() > 0 {
        let front = messages.drop_last();
        assert forall|i: int| 0 <= i < front.len() implies (#[trigger] front[i]).severity
            == Severity::Warning by {
            assert(front[i] == messages[i]);
        }
        lemma_no_errors(front);
        assert(messages[messages.len() - 1].severity == Severity::Warning);
    }
}

/// How many of the first `n` findings are past the count that their file is
/// allowed.
pub open spec fn past_count(
    findings: Seq<FindingView>,
    allowed: spec_fn(Seq<char>) -> nat,
    n: int,
) -> nat
    decreases n,
{
    if n <= 0 {
        0
    } else {
        past_count(findings, allowed, n - 1) + if is_past(findings, allowed, n - 1) {
            1nat
        } else {
            0nat
        }
    }
}

/// How many of the first `n` findings are in `file` and past its count.
pub open spec fn past_in(
    findings: Seq<FindingView>,
    allowed: spec_fn(Seq<char>) -> nat,
    file: Seq<char>,
    n: int,
) -> nat
    decreases n,
{
    if n <= 0 {
        0
    } else {
        past_in(findings, allowed, file, n - 1) + if findings[n - 1].def.file == file && is_past(
            findings,
            allowed,
            n - 1,
        ) {
            1nat
        } else {
            0nat
        }
    }
}

/// The findings past the count of a file are as many as it has more than it
/// is allowed.
pub proof fn past_findings_are_the_excess(
    findings: Seq<FindingView>,
    allowed: spec_fn(Seq<char>) -> nat,
    file: Seq<char>,
)
    ensures
        past_in(findings, allowed, file, findings.len() as int) == if is_over(
            findings,
            allowed,
            file,
        ) {
            (found_in(findings, file) - allowed(file)) as nat
        } else {
            0
        },
{
    lemma_past_in(findings, allowed, file, findings.len() as int);
    assert(findings.take(findings.len() as int) =~= findings);
}

proof fn lemma_past_in(
    findings: Seq<FindingView>,
    allowed: spec_fn(Seq<char>) -> nat,
    file: Seq<char>,
    n: int,
)
    requires
        0 <= n <= findings.len(),
    ensures
        past_in(findings, allowed, file, n) == if found_in(findings.take(n), file) > allowed(file) {
            (found_in(findings.take(n), file) - allowed(file)) as nat
        } else {
            0
        },
    decreases n,
{
    if n > 0 {
        lemma_past_in(findings, allowed, file, n - 1);
        assert(findings.take(n).drop_last() =~= findings.take(n - 1));
        assert(findings.take(n).last() == findings[n - 1]);
    }
}

/// The lines count every finding past the count of its file, once.
pub proof fn lines_count_the_past_findings(
    findings: Seq<FindingView>,
    allowed: spec_fn(Seq<char>) -> nat,
)
    ensures
        count_over(lines_over(findings, allowed, findings.len() as int)) == past_count(
            findings,
            allowed,
            findings.len() as int,
        ),
{
    lemma_lines_count(findings, allowed, findings.len() as int);
}

/// No section has two lines.
spec fn one_line_each(lines: Seq<LineView>) -> bool {
    forall|i: int, j: int|
        0 <= i < j < lines.len() ==> (#[trigger] lines[i]).section != (#[trigger] lines[j]).section
}

proof fn lemma_lines_count(
    findings: Seq<FindingView>,
    allowed: spec_fn(Seq<char>) -> nat,
    n: int,
)
    requires
        n <= findings.len(),
    ensures
        count_over(lines_over(findings, allowed, n)) == past_count(findings, allowed, n),
        one_line_each(lines_over(findings, allowed, n)),
    decreases n,
{
    if n > 0 {
        lemma_lines_count(findings, allowed, n - 1);
        lemma_one_more(lines_over(findings, allowed, n - 1), findings[n - 1].section);
    }
}

proof fn lemma_one_more(lines: Seq<LineView>, section: Seq<char>)
    requires
        one_line_each(lines),
    ensures
        one_line_each(one_more(lines, section)),
        count_over(one_more(lines, section)) == count_over(lines) + 1,
{
    let out = one_more(lines, section);
    if has_line(lines, section) {
        let k = choose|k: int| 0 <= k < lines.len() && (#[trigger] lines[k]).section == section;
        assert(out =~= lines.update(k, LineView { section, count: lines[k].count + 1 }));
        lemma_count_update(lines, k);
        assert forall|i: int, j: int| 0 <= i < j < out.len() implies (#[trigger] out[i]).section
            != (#[trigger] out[j]).section by {
            assert(out[i].section == lines[i].section && out[j].section == lines[j].section);
        }
    } else {
        assert(out.drop_last() =~= lines);
        assert forall|i: int, j: int| 0 <= i < j < out.len() implies (#[trigger] out[i]).section
            != (#[trigger] out[j]).section by {
            assert(out[i] == lines[i]);
            if j < lines.len() {
                assert(out[j] == lines[j]);
            }
        }
    }
}

proof fn lemma_count_update(lines: Seq<LineView>, k: int)
    requires
        0 <= k < lines.len(),
    ensures
        count_over(
            lines.update(k, LineView { section: lines[k].section, count: lines[k].count + 1 }),
        ) == count_over(lines) + 1,
    decreases lines.len(),
{
    let changed = LineView { section: lines[k].section, count: lines[k].count + 1 };
    let out = lines.update(k, changed);
    if k == lines.len() - 1 {
        assert(out.drop_last() =~= lines.drop_last());
    } else {
        lemma_count_update(lines.drop_last(), k);
        assert(out.drop_last() =~= lines.drop_last().update(k, changed));
    }
}

/// Writing the findings leaves every other entry as it was.
pub proof fn writing_leaves_other_entries(
    doc: Map<Seq<char>, Map<Seq<char>, u64>>,
    sections: Seq<Seq<char>>,
    findings: Seq<FindingView>,
    section: Seq<char>,
    key: Seq<char>,
)
    requires
        !is_own(key) || !sections.contains(section),
    ensures
        entries_of(written(doc, sections, findings), section).dom().contains(key) == entries_of(
            doc,
            section,
        ).dom().contains(key),
        entries_of(doc, section).dom().contains(key) ==> entries_of(
            written(doc, sections, findings),
            section,
        )[key] == entries_of(doc, section)[key],
{
    let entries = written_entries(doc, sections, findings, section);
    if entries_of(doc, section).dom().contains(key) {
        assert(entries.dom().contains(key));
        assert(has_any(entries));
    }
}

/// Writing the same findings again changes nothing.
pub proof fn writing_again_changes_nothing(
    doc: Map<Seq<char>, Map<Seq<char>, u64>>,
    sections: Seq<Seq<char>>,
    findings: Seq<FindingView>,
)
    ensures
        written(written(doc, sections, findings), sections, findings) == written(
            doc,
            sections,
            findings,
        ),
{
    let once = written(doc, sections, findings);
    assert forall|s: Seq<char>| #[trigger] written_entries(once, sections, findings, s)
        == written_entries(doc, sections, findings, s) by {
        let a = written_entries(once, sections, findings, s);
        let b = written_entries(doc, sections, findings, s);
        assert forall|k: Seq<char>| #[trigger] a.dom().contains(k) == b.dom().contains(k) by {
            if b.dom().contains(k) {
                assert(has_any(b));
            }
        }
        assert forall|k: Seq<char>| #[trigger] a.dom().contains(k) implies a[k] == b[k] by {
            if b.dom().contains(k) {
                assert(has_any(b));
            }
        }
        assert(a =~= b);
    }
    assert(written(once, sections, findings) =~= once);
}

/// What the named sections have of `key` among the findings.
spec fn found_over(names: Seq<Seq<char>>, findings: Seq<FindingView>, key: Seq<char>) -> nat
    decreases names.len(),
{
    if names.len() == 0 {
        0
    } else {
        found_over(names.drop_last(), findings, key) + found_for(findings, names.last(), key)
    }
}

/// One more finding adds one where its section is named.
proof fn lemma_found_over_step(
    names: Seq<Seq<char>>,
    findings: Seq<FindingView>,
    key: Seq<char>,
)
    requires
        findings.len() > 0,
        increasing(names),
    ensures
        found_over(names, findings, key) == found_over(names, findings.drop_last(), key) + if names
            .contains(findings.last().section) && entry_key(LINT@, findings.last().def.file)
            == key {
            1nat
        } else {
            0nat
        },
    decreases names.len(),
{
    if names.len() > 0 {
        let front = names.drop_last();
        let section = findings.last().section;
        assert forall|i: int, j: int| 0 <= i < j < front.len() implies text_before(
            #[trigger] front[i],
            #[trigger] front[j],
        ) by {
            assert(front[i] == names[i] && front[j] == names[j]);
        }
        lemma_found_over_step(front, findings, key);
        if front.contains(section) {
            let k = choose|k: int| 0 <= k < front.len() && front[k] == section;
            assert(names[k] == section);
            if names.last() == section {
                lemma_one_place(names, k, names.len() - 1);
            }
        }
        if names.contains(section) && names.last() != section {
            let k = choose|k: int| 0 <= k < names.len() && names[k] == section;
            assert(front[k] == section);
        }
        if names.last() == section {
            assert(names[names.len() - 1] == section);
        }
    }
}

/// Over sections that hold them all, the findings of a file are counted once
/// each.
proof fn lemma_found_over_all(
    names: Seq<Seq<char>>,
    findings: Seq<FindingView>,
    file: Seq<char>,
)
    requires
        increasing(names),
        in_sections(findings, names),
    ensures
        found_over(names, findings, entry_key(LINT@, file)) == found_in(findings, file),
    decreases findings.len(),
{
    let key = entry_key(LINT@, file);
    if findings.len() == 0 {
        lemma_found_over_none(names, findings, key);
    } else {
        let front = findings.drop_last();
        assert forall|i: int| 0 <= i < front.len() implies names.contains(
            (#[trigger] front[i]).section,
        ) by {
            assert(front[i] == findings[i]);
        }
        lemma_found_over_all(names, front, file);
        lemma_found_over_step(names, findings, key);
        assert(names.contains(findings[findings.len() - 1].section));
        let last = findings.last().def.file;
        if entry_key(LINT@, last) == key {
            let n = (LINT@ + ":"@).len() as int;
            assert(entry_key(LINT@, last).skip(n) =~= last);
            assert(key.skip(n) =~= file);
        }
    }
}

proof fn lemma_found_over_none(
    names: Seq<Seq<char>>,
    findings: Seq<FindingView>,
    key: Seq<char>,
)
    requires
        findings.len() == 0,
    ensures
        found_over(names, findings, key) == 0,
    decreases names.len(),
{
    if names.len() > 0 {
        lemma_found_over_none(names.drop_last(), findings, key);
    }
}

/// A baseline allows, for each file, at least the findings that were written
/// to it.
pub proof fn a_written_baseline_allows_the_findings(
    doc: Map<Seq<char>, Map<Seq<char>, u64>>,
    sections: Seq<Seq<char>>,
    findings: Seq<FindingView>,
    names: Seq<Seq<char>>,
    file: Seq<char>,
)
    requires
        findings.len() <= u64::MAX,
        in_sections(findings, sections),
        increasing(names),
        forall|s: Seq<char>| #[trigger]
            names.contains(s) <==> written(doc, sections, findings).dom().contains(s),
    ensures
        section_names(written(doc, sections, findings)) == names,
        total(written(doc, sections, findings), entry_key(LINT@, file)) >= found_in(findings, file),
{
    let out = written(doc, sections, findings);
    let key = entry_key(LINT@, file);
    lemma_section_names(out, names);
    assert(key.take((LINT@ + ":"@).len() as int) =~= LINT@ + ":"@);
    assert forall|i: int| 0 <= i < findings.len() implies names.contains(
        (#[trigger] findings[i]).section,
    ) by {
        let s = findings[i].section;
        let k = entry_key(LINT@, findings[i].def.file);
        assert(k.take((LINT@ + ":"@).len() as int) =~= LINT@ + ":"@);
        lemma_found_for_some(findings, i);
        assert(written_entries(doc, sections, findings, s).dom().contains(k));
        assert(has_any(written_entries(doc, sections, findings, s)));
        assert(out.dom().contains(s));
    }
    lemma_found_over_all(names, findings, file);
    assert forall|i: int| 0 <= i < names.len() implies out.dom().contains(#[trigger] names[i]) by {
        assert(names.contains(names[i]));
    }
    lemma_total_at_least(doc, sections, findings, names, key);
}

/// How many findings a baseline allows in a file.
pub open spec fn limit_in(doc: Map<Seq<char>, Map<Seq<char>, u64>>) -> spec_fn(Seq<char>) -> nat {
    |file: Seq<char>|
        match recorded_count(doc, LINT@, file) {
            Some(count) => count,
            None => 0,
        }
}

/// A later run with the same findings is held to what was written: it says
/// nothing. `names` are the sections of the written baseline, in order.
pub proof fn a_run_is_held_to_what_was_written(
    sources: Map<Seq<char>, Seq<char>>,
    root: Seq<char>,
    doc: Map<Seq<char>, Map<Seq<char>, u64>>,
    sections: Seq<Seq<char>>,
    findings: Seq<FindingView>,
    names: Seq<Seq<char>>,
    fallback: Option<int>,
)
    requires
        findings.len() <= u64::MAX,
        in_sections(findings, sections),
        increasing(names),
        forall|s: Seq<char>| #[trigger]
            names.contains(s) <==> written(doc, sections, findings).dom().contains(s),
    ensures
        held_messages(
            sources,
            root,
            findings,
            limit_in(written(doc, sections, findings)),
            fallback,
        ).len() == 0,
        lines_over(
            findings,
            limit_in(written(doc, sections, findings)),
            findings.len() as int,
        ).len() == 0,
{
    let out = written(doc, sections, findings);
    let allowed = limit_in(out);
    reveal_strlit("unused_pub");
    assert(!LINT@.contains(':'));
    assert forall|i: int| 0 <= i < findings.len() implies !is_over(
        findings,
        allowed,
        (#[trigger] findings[i]).def.file,
    ) by {
        let file = findings[i].def.file;
        let key = entry_key(LINT@, file);
        let s = findings[i].section;
        a_written_baseline_allows_the_findings(doc, sections, findings, names, file);
        assert(key.take((LINT@ + ":"@).len() as int) =~= LINT@ + ":"@);
        lemma_found_for_some(findings, i);
        assert(written_entries(doc, sections, findings, s).dom().contains(key));
        assert(has_any(written_entries(doc, sections, findings, s)));
        assert(out.dom().contains(s) && out[s].dom().contains(key));
        assert(has_entry(out, key));
    }
    within_the_baseline_nothing_is_said(sources, root, findings, allowed, fallback);
}

proof fn lemma_found_for_some(findings: Seq<FindingView>, i: int)
    requires
        0 <= i < findings.len(),
    ensures
        found_for(
            findings,
            findings[i].section,
            entry_key(LINT@, findings[i].def.file),
        ) > 0,
    decreases findings.len(),
{
    if i < findings.len() - 1 {
        lemma_found_for_some(findings.drop_last(), i);
        assert(findings.drop_last()[i] == findings[i]);
    }
}

proof fn lemma_found_for_judged(findings: Seq<FindingView>, section: Seq<char>, key: Seq<char>)
    requires
        forall|i: int| 0 <= i < findings.len() ==> (#[trigger] findings[i]).section != section,
    ensures
        found_for(findings, section, key) == 0,
    decreases findings.len(),
{
    if findings.len() > 0 {
        let front = findings.drop_last();
        assert forall|i: int| 0 <= i < front.len() implies (#[trigger] front[i]).section
            != section by {
            assert(front[i] == findings[i]);
        }
        lemma_found_for_judged(front, section, key);
        assert(findings[findings.len() - 1].section != section);
    }
}

proof fn lemma_total_at_least(
    doc: Map<Seq<char>, Map<Seq<char>, u64>>,
    sections: Seq<Seq<char>>,
    findings: Seq<FindingView>,
    names: Seq<Seq<char>>,
    key: Seq<char>,
)
    requires
        findings.len() <= u64::MAX,
        in_sections(findings, sections),
        is_own(key),
        forall|i: int|
            0 <= i < names.len() ==> written(doc, sections, findings).dom().contains(
                #[trigger] names[i],
            ),
    ensures
        total_over(written(doc, sections, findings), names, key) >= found_over(
            names,
            findings,
            key,
        ),
    decreases names.len(),
{
    if names.len() > 0 {
        let front = names.drop_last();
        let out = written(doc, sections, findings);
        assert forall|i: int| 0 <= i < front.len() implies out.dom().contains(
            #[trigger] front[i],
        ) by {
            assert(front[i] == names[i]);
        }
        lemma_total_at_least(doc, sections, findings, front, key);
        let s = names[names.len() - 1];
        assert(out.dom().contains(s));
        lemma_found_for_bound(findings, s, key);
        if !sections.contains(s) {
            assert forall|i: int| 0 <= i < findings.len() implies (
            #[trigger] findings[i]).section != s by {}
            lemma_found_for_judged(findings, s, key);
        }
    }
}

proof fn lemma_line_added(lines: Seq<LineView>, section: Seq<char>, other: Seq<char>)
    ensures
        has_line(one_more(lines, section), other) == (has_line(lines, other) || other == section),
{
    let out = one_more(lines, section);
    if has_line(lines, other) {
        let i = choose|i: int| 0 <= i < lines.len() && (#[trigger] lines[i]).section == other;
        assert(out[i].section == other);
    }
    if other == section && !has_line(lines, section) {
        assert(out[out.len() - 1].section == section);
    }
    if has_line(out, other) && other != section {
        let i = choose|i: int| 0 <= i < out.len() && (#[trigger] out[i]).section == other;
        assert(lines[i].section == other);
    }
}

/// A section is listed exactly when it has a finding past the count of its
/// file.
pub proof fn sections_with_past_findings_are_listed(
    findings: Seq<FindingView>,
    allowed: spec_fn(Seq<char>) -> nat,
    n: int,
    section: Seq<char>,
)
    requires
        0 <= n <= findings.len(),
    ensures
        has_line(lines_over(findings, allowed, n), section) <==> exists|i: int|
            0 <= i < n && #[trigger] is_past(findings, allowed, i) && findings[i].section
                == section,
    decreases n,
{
    if n > 0 {
        sections_with_past_findings_are_listed(findings, allowed, n - 1, section);
        lemma_line_added(
            lines_over(findings, allowed, n - 1),
            findings[n - 1].section,
            section,
        );
        if is_past(findings, allowed, n - 1) && findings[n - 1].section == section {
            assert(has_line(lines_over(findings, allowed, n), section));
        }
        if exists|i: int|
            0 <= i < n && #[trigger] is_past(findings, allowed, i) && findings[i].section
                == section {
            let i = choose|i: int|
                0 <= i < n && #[trigger] is_past(findings, allowed, i) && findings[i].section
                    == section;
            assert(i < n - 1 || i == n - 1);
        }
    }
}

/// Whether a finding is in `file`.
pub open spec fn in_file(file: Seq<char>) -> spec_fn(FindingView) -> bool {
    |f: FindingView| f.def.file == file
}

/// Whether the file of a finding holds more of the findings than it is
/// allowed.
pub open spec fn in_file_over(
    findings: Seq<FindingView>,
    allowed: spec_fn(Seq<char>) -> nat,
) -> spec_fn(FindingView) -> bool {
    |f: FindingView| findings.filter(in_file(f.def.file)).len() > allowed(f.def.file)
}

/// The findings counted in a file are those that name it.
pub proof fn the_findings_in_a_file_are_those_that_name_it(
    findings: Seq<FindingView>,
    file: Seq<char>,
)
    ensures
        found_in(findings, file) == findings.filter(in_file(file)).len(),
    decreases findings.len(),
{
    reveal(Seq::filter);
    if findings.len() > 0 {
        the_findings_in_a_file_are_those_that_name_it(findings.drop_last(), file);
    }
}

proof fn lemma_shown_is_filtered(
    sources: Map<Seq<char>, Seq<char>>,
    root: Seq<char>,
    findings: Seq<FindingView>,
    allowed: spec_fn(Seq<char>) -> nat,
    fallback: Option<int>,
    n: int,
)
    requires
        0 <= n <= findings.len(),
    ensures
        ({
            let kept = findings.take(n).filter(in_file_over(findings, allowed));
            let out = shown(sources, root, findings, allowed, fallback, n);
            &&& out.len() == kept.len()
            &&& forall|k: int|
                0 <= k < kept.len() ==> #[trigger] out[k] == finding_message(
                    sources,
                    root,
                    kept[k],
                    Severity::Warning,
                    Some(over_note(allowed(kept[k].def.file), kept[k].def.file)),
                    fallback,
                )
        }),
    decreases n,
{
    reveal(Seq::filter);
    if n > 0 {
        lemma_shown_is_filtered(sources, root, findings, allowed, fallback, n - 1);
        assert(findings.take(n).drop_last() =~= findings.take(n - 1));
        assert(findings.take(n).last() == findings[n - 1]);
        the_findings_in_a_file_are_those_that_name_it(findings, findings[n - 1].def.file);
    }
}

/// A run held to the baseline shows exactly the findings in the files that
/// hold more of them than they are allowed, in their order, each with the note
/// on its own file's count; whatever else it says points at no source.
pub proof fn exactly_the_findings_of_files_over_are_shown(
    sources: Map<Seq<char>, Seq<char>>,
    root: Seq<char>,
    findings: Seq<FindingView>,
    allowed: spec_fn(Seq<char>) -> nat,
    fallback: Option<int>,
)
    ensures
        ({
            let kept = findings.filter(in_file_over(findings, allowed));
            let said = held_messages(sources, root, findings, allowed, fallback);
            &&& kept.len() <= said.len()
            &&& forall|k: int|
                0 <= k < kept.len() ==> #[trigger] said[k] == finding_message(
                    sources,
                    root,
                    kept[k],
                    Severity::Warning,
                    Some(over_note(allowed(kept[k].def.file), kept[k].def.file)),
                    fallback,
                )
            &&& forall|k: int|
                kept.len() <= k < said.len() ==> (#[trigger] said[k]).at is None && said[k].code
                    is None && said[k].remarks.len() == 0
        }),
{
    lemma_shown_is_filtered(
        sources,
        root,
        findings,
        allowed,
        fallback,
        findings.len() as int,
    );
    assert(findings.take(findings.len() as int) =~= findings);
}

/// A message of a held run that points at a source is about a finding of the
/// run whose file holds more findings than it is allowed.
pub proof fn what_is_shown_is_in_a_file_over(
    sources: Map<Seq<char>, Seq<char>>,
    root: Seq<char>,
    findings: Seq<FindingView>,
    allowed: spec_fn(Seq<char>) -> nat,
    fallback: Option<int>,
    k: int,
)
    requires
        0 <= k < held_messages(sources, root, findings, allowed, fallback).len(),
        held_messages(sources, root, findings, allowed, fallback)[k].at is Some,
    ensures
        exists|i: int|
            0 <= i < findings.len() && ({
                let said = held_messages(sources, root, findings, allowed, fallback)[k];
                let file = (#[trigger] findings[i]).def.file;
                &&& findings.filter(in_file(file)).len() > allowed(file)
                &&& said.at->0.file == file
                &&& said.at->0.lo == findings[i].def.lo
                &&& said.at->0.hi == findings[i].def.hi
                &&& said.unit == Some(findings[i].unit)
            }),
{
    let kept = findings.filter(in_file_over(findings, allowed));
    exactly_the_findings_of_files_over_are_shown(sources, root, findings, allowed, fallback);
    let said = held_messages(sources, root, findings, allowed, fallback);
    assert(said[k] == said[k]);
    assert(kept.contains(kept[k]));
    lemma_filtered(findings, in_file_over(findings, allowed), kept[k]);
    let i = choose|i: int| 0 <= i < findings.len() && findings[i] == kept[k];
    assert(findings[i] == kept[k]);
}

/// The files named as over are those of the findings in which there are more
/// than allowed, each once.
pub proof fn the_files_over_are_named_once(
    findings: Seq<FindingView>,
    allowed: spec_fn(Seq<char>) -> nat,
    n: int,
)
    requires
        0 <= n <= findings.len(),
    ensures
        files_over(findings, allowed, n).no_duplicates(),
        forall|file: Seq<char>| #[trigger]
            files_over(findings, allowed, n).contains(file) <==> findings.filter(
                in_file(file),
            ).len() > allowed(file) && exists|i: int|
                0 <= i < n && (#[trigger] findings[i]).def.file == file,
    decreases n,
{
    if n > 0 {
        let before = files_over(findings, allowed, n - 1);
        let all = files_over(findings, allowed, n);
        let last = findings[n - 1].def.file;
        the_files_over_are_named_once(findings, allowed, n - 1);
        the_findings_in_a_file_are_those_that_name_it(findings, last);
        assert forall|file: Seq<char>| #[trigger]
            all.contains(file) <==> findings.filter(in_file(file)).len() > allowed(file) && exists|
                i: int,
            |
                0 <= i < n && (#[trigger] findings[i]).def.file == file by {
            if all.contains(file) && !before.contains(file) {
                let k = choose|k: int| 0 <= k < all.len() && all[k] == file;
                if k < before.len() {
                    assert(before[k] == file);
                }
                assert(findings[n - 1].def.file == file);
            }
            if before.contains(file) {
                let k = choose|k: int| 0 <= k < before.len() && before[k] == file;
                assert(all[k] == file);
                let i = choose|i: int| 0 <= i < n - 1 && (#[trigger] findings[i]).def.file == file;
                assert(0 <= i < n && findings[i].def.file == file);
            }
            if findings.filter(in_file(file)).len() > allowed(file) && exists|i: int|
                0 <= i < n && (#[trigger] findings[i]).def.file == file {
                let i = choose|i: int| 0 <= i < n && (#[trigger] findings[i]).def.file == file;
                if i < n - 1 {
                    assert(before.contains(file));
                } else if !before.contains(file) {
                    assert(all[all.len() - 1] == file);
                }
            }
        }
    }
}

/// Whether a finding is one of those past the count of its file: in its file
/// it comes behind as many as are allowed.
pub open spec fn comes_past(
    findings: Seq<FindingView>,
    allowed: spec_fn(Seq<char>) -> nat,
    i: int,
) -> bool {
    findings.take(i).filter(in_file(findings[i].def.file)).len() >= allowed(findings[i].def.file)
}

/// The places of the findings past the count of their file that are of
/// `section`.
pub open spec fn past_places(
    findings: Seq<FindingView>,
    allowed: spec_fn(Seq<char>) -> nat,
    section: Seq<char>,
    n: int,
) -> Seq<int> {
    Seq::new(n as nat, |i: int| i).filter(
        |i: int| comes_past(findings, allowed, i) && findings[i].section == section,
    )
}

/// A section is listed with the number of its findings that come past the
/// count of their file, one line for each section that has any.
pub proof fn a_section_is_listed_with_its_findings_past_the_count(
    findings: Seq<FindingView>,
    allowed: spec_fn(Seq<char>) -> nat,
    n: int,
    section: Seq<char>,
)
    requires
        0 <= n <= findings.len(),
    ensures
        forall|k: int|
            0 <= k < lines_over(findings, allowed, n).len() && (#[trigger] lines_over(
                findings,
                allowed,
                n,
            )[k]).section == section ==> lines_over(findings, allowed, n)[k].count == past_places(
                findings,
                allowed,
                section,
                n,
            ).len(),
        past_places(findings, allowed, section, n).len() > 0 <==> exists|k: int|
            0 <= k < lines_over(findings, allowed, n).len() && (#[trigger] lines_over(
                findings,
                allowed,
                n,
            )[k]).section == section,
        forall|j: int, k: int|
            0 <= j < k < lines_over(findings, allowed, n).len() ==> (#[trigger] lines_over(
                findings,
                allowed,
                n,
            )[j]).section != (#[trigger] lines_over(findings, allowed, n)[k]).section,
    decreases n,
{
    reveal(Seq::filter);
    lemma_lines_count(findings, allowed, n);
    if n > 0 {
        let before = lines_over(findings, allowed, n - 1);
        let after = lines_over(findings, allowed, n);
        a_section_is_listed_with_its_findings_past_the_count(findings, allowed, n - 1, section);
        lemma_lines_count(findings, allowed, n - 1);
        let places = Seq::new(n as nat, |i: int| i);
        assert(places.drop_last() =~= Seq::new((n - 1) as nat, |i: int| i));
        assert(places.last() == n - 1);
        let file = findings[n - 1].def.file;
        the_findings_in_a_file_are_those_that_name_it(findings.take(n - 1), file);
        assert(findings.take(n).drop_last() =~= findings.take(n - 1));
        assert(findings.take(n).last() == findings[n - 1]);
        assert(is_past(findings, allowed, n - 1) == comes_past(findings, allowed, n - 1));
        if is_past(findings, allowed, n - 1) {
            let own = findings[n - 1].section;
            lemma_line_added(before, own, section);
            assert(has_line(after, section) == (has_line(before, section) || section == own));
            assert forall|k: int|
                0 <= k < after.len() && (#[trigger] after[k]).section
                    == section implies after[k].count == past_places(
                findings,
                allowed,
                section,
                n,
            ).len() by {
                if k < before.len() {
                    assert(before[k].section == section);
                } else {
                    assert(section == own && !has_line(before, own));
                }
            }
        }
    } else {
        assert(Seq::new(0, |i: int| i) =~= Seq::<int>::empty());
    }
}

/// What a finding says when its source is at hand: what the item is and that
/// nothing uses it, at the place of its name in that source, with the advice
/// first among the remarks and as many others as there are notes.
pub proof fn a_finding_says_what_and_where(
    sources: Map<Seq<char>, Seq<char>>,
    root: Seq<char>,
    finding: FindingView,
    severity: Severity,
    over: Option<Seq<char>>,
    fallback: Option<int>,
)
    requires
        sources.dom().contains(joined_path(root, finding.def.file)),
    ensures
        ({
            let said = finding_message(sources, root, finding, severity, over, fallback);
            &&& said.severity == severity
            &&& starts_with(said.text, finding.def.descr + " `"@ + finding.def.path + "`"@)
            &&& said.at matches Some(at) && at.file == finding.def.file && at.lo == finding.def.lo
                && at.hi == finding.def.hi && at.source == sources[joined_path(
                root,
                finding.def.file,
            )]
            &&& said.unit == Some(finding.unit)
            &&& !said.closing
            &&& said.code is Some <==> over is None
            &&& said.remarks.len() > 0 && said.remarks[0].help && said.remarks[0].text == HELP@
            &&& over is None ==> said.remarks.len() == 1 + finding.def.notes.len() && forall|i: int|
                0 <= i < finding.def.notes.len() ==> (#[trigger] said.remarks[i + 1]).text
                    == finding.def.notes[i].message && said.remarks[i + 1].help
                    == finding.def.notes[i].help
            &&& over matches Some(note) ==> said.remarks.len() == 2 && said.remarks[1].text == note
                && !said.remarks[1].help && said.remarks[1].at is None
        }),
{
    let said = finding_message(sources, root, finding, severity, over, fallback);
    let head = finding.def.descr + " `"@ + finding.def.path + "`"@;
    reveal_strlit("`");
    reveal_strlit("` is public, but nothing in the workspace uses it");
    assert(said.text.take(head.len() as int) =~= head);
}

/// A finding whose source is gone is a warning that points at none, names the
/// file and still says what the item is.
pub proof fn a_finding_without_its_source_is_a_warning(
    sources: Map<Seq<char>, Seq<char>>,
    root: Seq<char>,
    finding: FindingView,
    severity: Severity,
    over: Option<Seq<char>>,
    fallback: Option<int>,
)
    requires
        !sources.dom().contains(joined_path(root, finding.def.file)),
    ensures
        ({
            let said = finding_message(sources, root, finding, severity, over, fallback);
            let words = finding.def.descr + " `"@ + finding.def.path + "`"@;
            &&& said.severity == Severity::Warning
            &&& said.at is None && said.code is None && said.remarks.len() == 0
            &&& said.unit == fallback
            &&& starts_with(said.text, "mordant: "@ + words)
        }),
{
    let said = finding_message(sources, root, finding, severity, over, fallback);
    let words = finding.def.descr + " `"@ + finding.def.path + "`"@;
    let head = "mordant: "@ + words;
    reveal_strlit("`");
    reveal_strlit("` is public, but nothing in the workspace uses it");
    assert(said.text.take(head.len() as int) =~= head);
}

/// Without a baseline every finding is said, in its order, as an error if its
/// level is one that fails the build and as a warning otherwise.
pub proof fn without_a_baseline_every_finding_is_said(
    sources: Map<Seq<char>, Seq<char>>,
    root: Seq<char>,
    findings: Seq<FindingView>,
    fallback: Option<int>,
    i: int,
)
    requires
        0 <= i < findings.len(),
        sources.dom().contains(joined_path(root, findings[i].def.file)),
    ensures
        free_messages(sources, root, findings, fallback).len() == findings.len(),
        ({
            let said = free_messages(sources, root, findings, fallback)[i];
            let def = findings[i].def;
            &&& said.severity == Severity::Error <==> def.level == "deny"@ || def.level
                == "forbid"@
            &&& said.text == item_words(def)
            &&& said.at matches Some(at) && at.file == def.file && at.lo == def.lo && at.hi
                == def.hi
            &&& said.code is Some
            &&& said.unit == Some(findings[i].unit)
        }),
{
}

/// The closing count counts the messages that point at a source, by their
/// severity.
pub proof fn the_closing_count_counts_what_points_at_a_source(
    messages: Seq<MessageView>,
    severity: Severity,
)
    ensures
        tallied(messages, severity) == messages.filter(
            |m: MessageView| m.at is Some && m.severity == severity,
        ).len(),
    decreases messages.len(),
{
    reveal(Seq::filter);
    if messages.len() > 0 {
        the_closing_count_counts_what_points_at_a_source(messages.drop_last(), severity);
    }
}

/// There is one closing message, behind everything else, exactly when there is
/// something to count and the output is no JSON; it is an error exactly when
/// an error is counted.
pub proof fn a_count_closes_what_is_printed(output: OutputView, errors: nat, warnings: nat)
    ensures
        closing_count(output, errors, warnings).len() == if !(output is Json) && (errors > 0
            || warnings > 0) {
            1int
        } else {
            0int
        },
        closing_count(output, errors, warnings).len() > 0 ==> ({
            let said = closing_count(output, errors, warnings)[0];
            &&& said.closing && said.at is None && said.unit is None
            &&& said.severity == Severity::Error <==> errors > 0
        }),
{
}

/// The findings of a section that are counted under a file.
pub open spec fn of_section_and_file(section: Seq<char>, file: Seq<char>) -> spec_fn(
    FindingView,
) -> bool {
    |f: FindingView| f.section == section && f.def.file == file
}

proof fn lemma_found_for_filtered(
    findings: Seq<FindingView>,
    section: Seq<char>,
    file: Seq<char>,
)
    ensures
        found_for(findings, section, entry_key(LINT@, file)) == findings.filter(
            of_section_and_file(section, file),
        ).len(),
    decreases findings.len(),
{
    reveal(Seq::filter);
    if findings.len() > 0 {
        lemma_found_for_filtered(findings.drop_last(), section, file);
        let head = LINT@ + ":"@;
        let last = findings.last().def.file;
        if entry_key(LINT@, last) == entry_key(LINT@, file) {
            assert(entry_key(LINT@, last).skip(head.len() as int) =~= last);
            assert(entry_key(LINT@, file).skip(head.len() as int) =~= file);
        }
    }
}

/// A written baseline holds, for each section that was judged and each file,
/// how many findings of that section are in that file, and no entry where
/// there are none.
pub proof fn a_written_baseline_counts_the_findings(
    doc: Map<Seq<char>, Map<Seq<char>, u64>>,
    sections: Seq<Seq<char>>,
    findings: Seq<FindingView>,
    section: Seq<char>,
    file: Seq<char>,
)
    requires
        sections.contains(section),
        findings.len() <= u64::MAX,
    ensures
        ({
            let entries = entries_of(written(doc, sections, findings), section);
            let key = LINT@ + ":"@ + file;
            let count = findings.filter(of_section_and_file(section, file)).len();
            &&& entries.dom().contains(key) <==> count > 0
            &&& count > 0 ==> entries[key] == count
        }),
        written(doc, sections, findings).dom().contains(section) ==> exists|key: Seq<char>|
            written(doc, sections, findings)[section].dom().contains(key),
{
    let key = entry_key(LINT@, file);
    let entries = written_entries(doc, sections, findings, section);
    assert(key.take((LINT@ + ":"@).len() as int) =~= LINT@ + ":"@);
    assert(is_own(key));
    lemma_found_for_filtered(findings, section, file);
    lemma_found_for_bound(findings, section, key);
    if found_for(findings, section, key) > 0 {
        assert(entries.dom().contains(key));
        assert(has_any(entries));
    }
}

/// The crate roots named in a message are the sources as they read from the
/// workspace root, each once.
pub proof fn each_crate_root_is_named_once(root: Seq<char>, srcs: Seq<Seq<char>>)
    ensures
        roots_named(root, srcs).no_duplicates(),
        forall|i: int|
            0 <= i < srcs.len() ==> roots_named(root, srcs).contains(
                "`"@ + from_root(#[trigger] srcs[i], root) + "`"@,
            ),
        roots_named(root, srcs).len() <= srcs.len(),
    decreases srcs.len(),
{
    if srcs.len() > 0 {
        let front = srcs.drop_last();
        let before = roots_named(root, front);
        let all = roots_named(root, srcs);
        let last = "`"@ + from_root(srcs.last(), root) + "`"@;
        each_crate_root_is_named_once(root, front);
        assert forall|x: Seq<char>| before.contains(x) implies #[trigger] all.contains(x) by {
            let k = choose|k: int| 0 <= k < before.len() && before[k] == x;
            assert(all[k] == x);
        }
        assert(all.contains(last)) by {
            if !before.contains(last) {
                assert(all[all.len() - 1] == last);
            }
        }
        assert forall|i: int| 0 <= i < srcs.len() implies all.contains(
            "`"@ + from_root(#[trigger] srcs[i], root) + "`"@,
        ) by {
            if i < front.len() {
                assert(front[i] == srcs[i]);
                assert(before.contains("`"@ + from_root(front[i], root) + "`"@));
            }
        }
    }
}

/// A file is allowed the findings that are recorded for it, and none where
/// nothing is.
pub proof fn a_file_is_allowed_what_is_recorded(recorded: &Recorded, file: Seq<char>)
    ensures
        recorded.count("unused_pub"@, file) matches Some(count) ==> limit_of(recorded)(file)
            == count,
        recorded.count("unused_pub"@, file) is None ==> limit_of(recorded)(file) == 0,
{
}

/// One is counted as one, and any other number with its plural.
pub proof fn only_one_is_not_plural(n: nat, what: Seq<char>)
    ensures
        n == 1 ==> plural(n, what) == "1 "@ + what,
        n != 1 ==> starts_with(plural(n, what), decimal(n)) && plural(n, what).len() == decimal(
            n,
        ).len() + what.len() + 2 && plural(n, what).last() == 's',
{
    reveal_strlit("s");
    reveal_strlit(" ");
    if n != 1 {
        assert(plural(n, what).take(decimal(n).len() as int) =~= decimal(n));
    }
}

/// The closing count says how many errors there are, if there are any, and
/// ends with how many warnings there are, if there are any.
pub proof fn the_closing_count_says_both_numbers(output: OutputView, errors: nat, warnings: nat)
    requires
        !(output is Json),
        errors + warnings > 0,
    ensures
        ({
            let text = closing_count(output, errors, warnings)[0].text;
            let start = "`"@ + LINT@ + "` generated "@;
            let some = plural(errors, "error"@);
            let more = plural(warnings, "warning"@);
            &&& starts_with(text, start)
            &&& errors > 0 ==> starts_with(text, start + some)
            &&& errors == 0 ==> text == start + more
            &&& warnings == 0 ==> text == start + some
            &&& warnings > 0 ==> text.len() >= more.len() && text.skip(text.len() - more.len())
                == more
        }),
{
    let text = closing_count(output, errors, warnings)[0].text;
    let start = "`"@ + LINT@ + "` generated "@;
    let some = plural(errors, "error"@);
    let more = plural(warnings, "warning"@);
    assert(text.take(start.len() as int) =~= start);
    if errors > 0 {
        assert(text.take((start + some).len() as int) =~= start + some);
    }
    if warnings > 0 {
        assert(text.skip(text.len() - more.len()) =~= more);
    }
}

/// Writing leaves every entry as it was that is of another lint, whatever that
/// lint is named, or of a section that was not judged.
pub proof fn writing_leaves_the_entries_of_other_lints(
    doc: Map<Seq<char>, Map<Seq<char>, u64>>,
    sections: Seq<Seq<char>>,
    findings: Seq<FindingView>,
    section: Seq<char>,
    lint: Seq<char>,
    file: Seq<char>,
)
    requires
        !lint.contains(':'),
        lint != "unused_pub"@ || !sections.contains(section),
        doc.dom().contains(section),
        doc[section].dom().contains(lint + ":"@ + file),
    ensures
        ({
            let out = written(doc, sections, findings);
            &&& out.dom().contains(section)
            &&& out[section].dom().contains(lint + ":"@ + file)
            &&& out[section][lint + ":"@ + file] == doc[section][lint + ":"@ + file]
        }),
{
    let key = lint + ":"@ + file;
    reveal_strlit(":");
    reveal_strlit("unused_pub");
    if is_own(key) && sections.contains(section) {
        let head = LINT@ + ":"@;
        assert(":"@ =~= seq![':']);
        assert(!LINT@.contains(':'));
        let rest = key.skip(head.len() as int);
        assert(head =~= LINT@.push(':'));
        assert(key =~= key.take(head.len() as int) + rest);
        assert(key =~= lint.push(':') + file);
        lemma_cut_after(LINT@, ':', rest);
        lemma_cut_after(lint, ':', file);
        assert(lint == LINT@);
    }
    writing_leaves_other_entries(doc, sections, findings, section, key);
}

/// A run that writes the baseline says nothing and fails nothing; one that is
/// held to it has no error among its findings; and one without a baseline
/// lists no section. Only the first changes the baseline.
pub proof fn a_run_that_writes_says_nothing(
    report: Report,
    sources: Map<Seq<char>, Seq<char>>,
    root: Seq<char>,
    findings: Seq<FindingView>,
    sections: Seq<Seq<char>>,
    output: OutputView,
    fallback: Option<int>,
    baseline: Baseline,
)
    requires
        is_report_on(
            report,
            sources,
            root,
            findings,
            sections,
            output,
            fallback,
            baseline,
        ),
    ensures
        report.baseline is Some <==> baseline is Write,
        baseline is Write ==> report.messages@.len() == 0 && report.lines@.len() == 0
            && !report.errors,
        baseline is Held ==> !report.errors,
        baseline is Unset ==> report.lines@.len() == 0 && report.messages@.len()
            >= findings.len(),
{
    if let Baseline::Held(recorded) = baseline {
        held_findings_are_warnings(sources, root, findings, limit_of(&recorded), fallback);
    }
    if baseline is Unset {
        let said = free_messages(sources, root, findings, fallback);
        assert(viewed(report.messages@).len() == report.messages@.len());
        assert(said.len() == findings.len());
    }
}

/// Without a baseline, and with the sources at hand, a run has an error exactly
/// when a finding's level is one that fails the build.
pub proof fn a_finding_that_fails_the_build_is_an_error(
    report: Report,
    sources: Map<Seq<char>, Seq<char>>,
    root: Seq<char>,
    findings: Seq<FindingView>,
    sections: Seq<Seq<char>>,
    output: OutputView,
    fallback: Option<int>,
)
    requires
        is_report_on(
            report,
            sources,
            root,
            findings,
            sections,
            output,
            fallback,
            Baseline::Unset,
        ),
        forall|i: int|
            0 <= i < findings.len() ==> sources.dom().contains(
                joined_path(root, (#[trigger] findings[i]).def.file),
            ),
    ensures
        report.errors <==> exists|i: int|
            0 <= i < findings.len() && ((#[trigger] findings[i]).def.level == "deny"@
                || findings[i].def.level == "forbid"@),
{
    let said = free_messages(sources, root, findings, fallback);
    let is_error = |m: MessageView| m.at is Some && m.severity == Severity::Error;
    the_closing_count_counts_what_points_at_a_source(said, Severity::Error);
    let errors = said.filter(is_error);
    if report.errors {
        assert(errors.len() > 0);
        assert(errors.contains(errors[0]));
        lemma_filtered(said, is_error, errors[0]);
        let i = choose|i: int| 0 <= i < said.len() && said[i] == errors[0];
        assert(sources.dom().contains(joined_path(root, findings[i].def.file)));
        without_a_baseline_every_finding_is_said(sources, root, findings, fallback, i);
    }
    if exists|i: int|
        0 <= i < findings.len() && ((#[trigger] findings[i]).def.level == "deny"@
            || findings[i].def.level == "forbid"@) {
        let i = choose|i: int|
            0 <= i < findings.len() && ((#[trigger] findings[i]).def.level == "deny"@
                || findings[i].def.level == "forbid"@);
        assert(sources.dom().contains(joined_path(root, findings[i].def.file)));
        without_a_baseline_every_finding_is_said(sources, root, findings, fallback, i);
        assert(said.contains(said[i]));
        lemma_filtered(said, is_error, said[i]);
        assert(errors.len() > 0);
    }
}

/// A note points at the source that it names, if that is at hand, and at none
/// otherwise; its words stay.
pub proof fn a_note_points_at_the_source_it_names(
    sources: Map<Seq<char>, Seq<char>>,
    root: Seq<char>,
    note: NoteView,
)
    ensures
        ({
            let remark = remark_of(sources, root, note);
            &&& remark.text == note.message && remark.help == note.help
            &&& note.at is None ==> remark.at is None
            &&& note.at matches Some((file, lo, hi)) ==> {
                &&& remark.at is Some <==> sources.dom().contains(joined_path(root, file))
                &&& remark.at matches Some(at) ==> at.file == file && at.lo == lo && at.hi == hi
                    && at.source == sources[joined_path(root, file)]
            }
        }),
{
}

/// Behind the findings it shows, a held run says once of each file over how
/// many findings are in it and how many are allowed, and then of each section
/// how many are past the count; all are warnings about no one item.
pub proof fn each_file_and_section_over_is_said_once(
    sources: Map<Seq<char>, Seq<char>>,
    root: Seq<char>,
    findings: Seq<FindingView>,
    allowed: spec_fn(Seq<char>) -> nat,
    fallback: Option<int>,
)
    ensures
        ({
            let said = held_messages(sources, root, findings, allowed, fallback);
            let n = findings.len() as int;
            let first = findings.filter(in_file_over(findings, allowed)).len() as int;
            let files = files_over(findings, allowed, n);
            let lines = lines_over(findings, allowed, n);
            &&& said.len() == first + files.len() + lines.len()
            &&& forall|k: int|
                0 <= k < files.len() ==> (#[trigger] said[first + k]).text == over_words(
                    LINT@,
                    files[k],
                    findings.filter(in_file(files[k])).len(),
                    allowed(files[k]),
                )
            &&& forall|k: int|
                0 <= k < lines.len() ==> (#[trigger] said[first + files.len() + k]).text
                    == lines[k].summary()
            &&& forall|k: int|
                first <= k < said.len() ==> (#[trigger] said[k]).unit == fallback && said[k].severity
                    == Severity::Warning && !said[k].closing
        }),
{
    let n = findings.len() as int;
    lemma_shown_is_filtered(sources, root, findings, allowed, fallback, n);
    assert(findings.take(n) =~= findings);
    let said = held_messages(sources, root, findings, allowed, fallback);
    let first = findings.filter(in_file_over(findings, allowed)).len() as int;
    let files = files_over(findings, allowed, n);
    assert forall|k: int| 0 <= k < files.len() implies (#[trigger] said[first + k]).text
        == over_words(
        LINT@,
        files[k],
        findings.filter(in_file(files[k])).len(),
        allowed(files[k]),
    ) by {
        the_findings_in_a_file_are_those_that_name_it(findings, files[k]);
    }
}

/// What is said of a file over holds both of its numbers, and the note under a
/// finding holds the one that is recorded, with the file.
pub proof fn what_is_over_is_said_in_numbers(
    lint: Seq<char>,
    file: Seq<char>,
    found: nat,
    allowed: nat,
)
    ensures
        starts_with(
            over_words(lint, file, found, allowed),
            "mordant: "@ + decimal(found) + " `"@ + lint + "` findings in "@ + file
                + ", and the baseline allows "@ + decimal(allowed) + "."@,
        ),
        holds(over_note(allowed, file), decimal(allowed) + " recorded for "@ + file),
{
    let head = "mordant: "@ + decimal(found) + " `"@ + lint + "` findings in "@ + file
        + ", and the baseline allows "@ + decimal(allowed) + "."@;
    reveal_strlit(".");
    reveal_strlit(". The baseline holds a count, not which findings, so all ");
    let words = over_words(lint, file, found, allowed);
    assert(words.take(head.len() as int) =~= head);
    let note = over_note(allowed, file);
    let before = "`"@ + LINT@ + "` over the mordant baseline ("@;
    let part = decimal(allowed) + " recorded for "@ + file;
    assert(note =~= before + part + ")"@);
    a_part_stands_between(before, part, ")"@);
}

/// A message about no one item is for the first unit of the run, and for none
/// only where the run has none.
pub proof fn a_message_about_no_item_is_for_the_first_unit(units: nat)
    ensures
        units > 0 ==> (first_unit(units) matches Some(unit) && unit == 0 && unit < units),
        units == 0 ==> first_unit(units) is None,
{
}

/// What is said when records are missing names each crate root and the
/// directory to remove, which is the one above the records.
pub proof fn missing_records_are_said_with_what_to_remove(
    root: Seq<char>,
    facts: Seq<char>,
    srcs: Seq<Seq<char>>,
)
    ensures
        holds(missing_words(root, facts, srcs), listed_in_words(roots_named(root, srcs))),
        holds(missing_words(root, facts, srcs), "remove `"@ + above(facts) + "`"@),
        directory(facts) matches Some(dir) ==> above(facts) == dir,
{
    let words = missing_words(root, facts, srcs);
    let names = listed_in_words(roots_named(root, srcs));
    let start = "mordant: `unused_pub` did not judge the workspace: "@;
    let middle = " left no record of what it uses; remove `"@;
    let end = "`, which holds those records and the build `cargo mordant` reuses, then run again"@;
    a_part_stands_between(start, names, middle + above(facts) + end);
    assert(words =~= start + names + (middle + above(facts) + end));
    reveal_strlit(" left no record of what it uses; remove `");
    reveal_strlit(
        "`, which holds those records and the build `cargo mordant` reuses, then run again",
    );
    reveal_strlit("remove `");
    reveal_strlit("`");
    let n = middle.len() - "remove `"@.len();
    let part = "remove `"@ + above(facts) + "`"@;
    let before = start + names + middle.take(n);
    assert(middle =~= middle.take(n) + "remove `"@);
    assert(end =~= "`"@ + end.skip(1));
    a_part_stands_between(before, part, end.skip(1));
    assert(words =~= before + part + end.skip(1));
}

/// A report that is no JSON ends with the count of the findings it pointed at,
/// if it pointed at any: with how many warnings there were where none was an
/// error, and as an error where one was. In JSON nothing is counted.
pub proof fn a_report_closes_with_the_count_of_what_it_pointed_at(
    report: Report,
    sources: Map<Seq<char>, Seq<char>>,
    root: Seq<char>,
    findings: Seq<FindingView>,
    sections: Seq<Seq<char>>,
    output: OutputView,
    fallback: Option<int>,
    baseline: Baseline,
)
    requires
        is_report_on(
            report,
            sources,
            root,
            findings,
            sections,
            output,
            fallback,
            baseline,
        ),
        !(baseline is Write),
    ensures
        ({
            let messages = viewed(report.messages@);
            let pointed = messages.filter(|m: MessageView| m.at is Some).len();
            &&& !(output is Json) && pointed > 0 ==> messages.len() > 0 && messages.last().closing
                && (messages.last().severity == Severity::Error <==> report.errors)
            &&& !(output is Json) && pointed > 0 && !report.errors ==> messages.last().text
                == "`"@ + LINT@ + "` generated "@ + plural(pointed, "warning"@)
            &&& report.errors <==> messages.filter(
                |m: MessageView| m.at is Some && m.severity == Severity::Error,
            ).len() > 0
        }),
{
    let said = match baseline {
        Baseline::Held(recorded) => held_messages(
            sources,
            root,
            findings,
            limit_of(&recorded),
            fallback,
        ),
        _ => free_messages(sources, root, findings, fallback),
    };
    let errors = tallied(said, Severity::Error);
    let warnings = tallied(said, Severity::Warning);
    let closing = closing_count(output, errors, warnings);
    let messages = viewed(report.messages@);
    let placed = |m: MessageView| m.at is Some;
    let failing = |m: MessageView| m.at is Some && m.severity == Severity::Error;
    assert(messages == said + closing);
    lemma_placed(said);
    the_closing_count_counts_what_points_at_a_source(said, Severity::Error);
    the_closing_count_counts_what_points_at_a_source(messages, Severity::Error);
    Seq::filter_distributes_over_add(said, closing, placed);
    Seq::filter_distributes_over_add(said, closing, failing);
    lemma_closing_points_at_nothing(output, errors, warnings);
    assert(messages.filter(placed).len() == errors + warnings);
    assert(messages.filter(failing).len() == errors);
    if closing.len() > 0 {
        assert(messages.last() == closing.last());
    }
}

proof fn lemma_placed(messages: Seq<MessageView>)
    ensures
        messages.filter(|m: MessageView| m.at is Some).len() == tallied(messages, Severity::Error)
            + tallied(messages, Severity::Warning),
    decreases messages.len(),
{
    reveal(Seq::filter);
    if messages.len() > 0 {
        lemma_placed(messages.drop_last());
    }
}

proof fn lemma_closing_points_at_nothing(output: OutputView, errors: nat, warnings: nat)
    ensures
        closing_count(output, errors, warnings).filter(|m: MessageView| m.at is Some).len() == 0,
        closing_count(output, errors, warnings).filter(
            |m: MessageView| m.at is Some && m.severity == Severity::Error,
        ).len() == 0,
{
    reveal(Seq::filter);
    let closing = closing_count(output, errors, warnings);
    if closing.len() > 0 {
        let front = closing.drop_last();
        assert(front.len() == 0);
        assert(front.filter(|m: MessageView| m.at is Some).len() == 0);
        assert(front.filter(
            |m: MessageView| m.at is Some && m.severity == Severity::Error,
        ).len() == 0);
        assert(closing.last().at is None);
    }
}

} // verus!
