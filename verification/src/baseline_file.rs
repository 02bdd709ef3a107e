//! The baseline file and `over-baseline.txt`: where they are, and what is
//! read from them and written to them.
//!
//! The baseline file is TOML: one table per section, each crate compilation's
//! own, holding `"<lint>:<file>" = <count>`.

use std::collections::BTreeMap;

use vstd::prelude::*;
use vstd::string::*;

use crate::maps::{lemma_listed, TextMap};
use crate::number::{count_text, decimal};
use crate::order::{text_before, text_before_irreflexive};
use crate::paths::{
    a_joined_path_has_the_components_of_both, components, directory, directory_of, is_absolute,
    is_component, join_path, joined_path, lemma_directory_is_shorter,
};
use crate::sets::{increasing, same_texts_are_listed_alike, TextSet};
use crate::text::{cut, lemma_cut, lemma_cut_after, lemma_cut_none, split, split_once, views};

verus! {

/// Set, the run rewrites the baseline instead of being held to it.
pub const WRITE_ENV: &'static str = "MORDANT_BASELINE_WRITE";

/// Whether the run rewrites the baseline, given the value of [`WRITE_ENV`].
pub fn write_mode(value: Option<&str>) -> (r: bool)
    ensures
        r == value is Some,
{
    value.is_some()
}

/// What a baseline file holds: for each section, the count of each entry.
pub struct Doc {
    sections: TextMap<TextMap<u64>>,
}

impl View for Doc {
    type V = Map<Seq<char>, Map<Seq<char>, u64>>;

    closed spec fn view(&self) -> Map<Seq<char>, Map<Seq<char>, u64>> {
        self.sections@.map_values(|entries: TextMap<u64>| entries@)
    }
}

/// The entries of a section, none if there is no such section.
pub open spec fn entries_of(
    doc: Map<Seq<char>, Map<Seq<char>, u64>>,
    section: Seq<char>,
) -> Map<Seq<char>, u64> {
    if doc.dom().contains(section) {
        doc[section]
    } else {
        Map::empty()
    }
}

impl Doc {
    /// Each section stands once, and each entry once in its section.
    pub closed spec fn wf(&self) -> bool {
        &&& self.sections.wf()
        &&& forall|i: int|
            0 <= i < self.sections.values().len() ==> (#[trigger] self.sections.values()[i]).wf()
    }

    pub fn new() -> (doc: Doc)
        ensures
            doc.wf(),
            doc@ == Map::<Seq<char>, Map<Seq<char>, u64>>::empty(),
    {
        let doc = Doc { sections: TextMap::new() };
        assert(doc@ =~= Map::<Seq<char>, Map<Seq<char>, u64>>::empty());
        doc
    }

    /// The names of the sections, in their order.
    spec fn names(&self) -> Seq<Seq<char>> {
        self.sections.keys()
    }

    proof fn lemma_wf(&self)
        requires
            self.wf(),
        ensures
            increasing(self.names()),
            forall|s: Seq<char>| #[trigger]
                self@.dom().contains(s) <==> self.names().contains(s),
            forall|s: Seq<char>| #[trigger]
                self@.dom().contains(s) ==> self.sections@.dom().contains(s)
                    && self.sections@[s].wf() && self@[s] == self.sections@[s]@,
            forall|i: int|
                0 <= i < self.names().len() ==> self@.dom().contains(#[trigger] self.names()[i])
                    && self@[self.names()[i]] == self.sections.values()[i]@,
    {
        lemma_listed(self.sections.keys(), self.sections.values());
        assert forall|s: Seq<char>| #[trigger] self@.dom().contains(s) implies self.sections@[s].wf() by {
            let i = choose|i: int| 0 <= i < self.names().len() && self.names()[i] == s;
            assert(self.sections.values()[i].wf());
        }
    }

    fn len(&self) -> (n: usize)
        ensures
            n == self.names().len(),
    {
        self.sections.len()
    }

    fn name_at(&self, i: usize) -> (name: &String)
        requires
            i < self.names().len(),
        ensures
            name@ == self.names()[i as int],
    {
        self.sections.key_at(i)
    }

    /// The names of the sections.
    pub fn section_names(&self) -> (names: Vec<String>)
        requires
            self.wf(),
        ensures
            forall|s: Seq<char>| #[trigger] views(names@).contains(s) <==> self@.dom().contains(s),
    {
        let mut names: Vec<String> = Vec::new();
        let mut i: usize = 0;
        while i < self.len()
            invariant
                i <= self.names().len(),
                views(names@) == self.names().take(i as int),
            decreases self.names().len() - i,
        {
            let ghost before = views(names@);
            let name = self.name_at(i).clone();
            names.push(name);
            assert(views(names@) =~= before.push(name@));
            assert(self.names().take(i + 1) =~= self.names().take(i as int).push(name@));
            i = i + 1;
        }
        proof {
            self.lemma_wf();
            assert(self.names().take(i as int) =~= self.names());
        }
        names
    }

    /// Takes a section out, and gives its entries.
    pub fn take_section(&mut self, section: &str) -> (entries: TextMap<u64>)
        requires
            old(self).wf(),
        ensures
            final(self).wf(),
            final(self)@ == old(self)@.remove(section@),
            entries.wf(),
            entries@ == entries_of(old(self)@, section@),
    {
        proof {
            self.lemma_wf();
        }
        let taken = self.sections.remove(section);
        proof {
            assert(self@ =~= old(self)@.remove(section@));
            lemma_listed(self.sections.keys(), self.sections.values());
            assert forall|i: int| 0 <= i < self.sections.values().len() implies (
            #[trigger] self.sections.values()[i]).wf() by {
                let s = self.sections.keys()[i];
                assert(self.sections@.dom().contains(s));
                assert(self.sections@[s] == self.sections.values()[i]);
                assert(old(self)@.dom().contains(s));
                assert(old(self).sections@[s].wf());
            }
        }
        match taken {
            Some(entries) => {
                assert(old(self)@.dom().contains(section@));
                entries
            },
            None => TextMap::new(),
        }
    }

    /// Gives a section its entries, in place of the ones it had.
    pub fn put_section(&mut self, section: &str, entries: TextMap<u64>)
        requires
            old(self).wf(),
            entries.wf(),
        ensures
            final(self).wf(),
            final(self)@ == old(self)@.insert(section@, entries@),
    {
        proof {
            self.lemma_wf();
        }
        self.sections.put(section, entries);
        proof {
            assert(self@ =~= old(self)@.insert(section@, entries@));
            lemma_listed(self.sections.keys(), self.sections.values());
            assert forall|i: int| 0 <= i < self.sections.values().len() implies (
            #[trigger] self.sections.values()[i]).wf() by {
                let s = self.sections.keys()[i];
                assert(self.sections@.dom().contains(s));
                assert(self.sections@[s] == self.sections.values()[i]);
                if s != section@ {
                    assert(old(self)@.dom().contains(s));
                    assert(old(self).sections@[s].wf());
                }
            }
        }
    }
}

/// The entries that a list gives, one after the other.
pub open spec fn entries_listed(list: Seq<(String, u64)>) -> Map<Seq<char>, u64>
    decreases list.len(),
{
    if list.len() == 0 {
        Map::empty()
    } else {
        entries_listed(list.drop_last()).insert(list.last().0@, list.last().1)
    }
}

/// The sections that a list gives, one after the other.
pub open spec fn sections_listed(list: Seq<(String, Vec<(String, u64)>)>) -> Map<
    Seq<char>,
    Map<Seq<char>, u64>,
>
    decreases list.len(),
{
    if list.len() == 0 {
        Map::empty()
    } else {
        sections_listed(list.drop_last()).insert(list.last().0@, entries_listed(list.last().1@))
    }
}

/// The sections that `toml::from_str` reads from a text as tables of counts,
/// if it can.
pub uninterp spec fn toml_counts(text: Seq<char>) -> Option<Map<Seq<char>, Map<Seq<char>, u64>>>;

/// The text that `toml::to_string_pretty` gives for tables of counts.
pub uninterp spec fn counts_toml(doc: Map<Seq<char>, Map<Seq<char>, u64>>) -> Seq<char>;

/// `toml::from_str` into a map of maps to counts. What it reads is a function
/// of the text, and nothing when the text is no TOML or holds anything else.
#[verifier::external_body]
fn list_from_toml(text: &str) -> (list: Option<Vec<(String, Vec<(String, u64)>)>>)
    ensures
        match list {
            Some(list) => toml_counts(text@) == Some(sections_listed(list@)),
            None => toml_counts(text@) is None,
        },
{
    let doc: BTreeMap<String, BTreeMap<String, u64>> = toml::from_str(text).ok()?;
    Some(doc.into_iter().map(|(s, e)| (s, e.into_iter().collect())).collect())
}

/// `toml::to_string_pretty` of a map of maps to counts. It has a text for
/// every such map, which is a function of the map, and reading the text gives
/// the map back: the writer quotes and escapes every key that needs it, and
/// writes an empty table as its header.
#[verifier::external_body]
fn toml_from_list(list: Vec<(String, Vec<(String, u64)>)>) -> (text: Option<String>)
    ensures
        text is Some,
        text->0@ == counts_toml(sections_listed(list@)),
        toml_counts(text->0@) == Some(sections_listed(list@)),
{
    let sections = list.into_iter().map(|(s, e)| (s, e.into_iter().collect()));
    let doc: BTreeMap<String, BTreeMap<String, u64>> = sections.collect();
    toml::to_string_pretty(&doc).ok()
}

/// What a baseline text holds; nothing when it cannot be read.
pub open spec fn doc_read(text: Seq<char>) -> Map<Seq<char>, Map<Seq<char>, u64>> {
    match toml_counts(text) {
        Some(doc) => doc,
        None => Map::empty(),
    }
}

fn entries_from_list(list: &Vec<(String, u64)>) -> (entries: TextMap<u64>)
    ensures
        entries.wf(),
        entries@ == entries_listed(list@),
{
    let mut entries: TextMap<u64> = TextMap::new();
    let mut i: usize = 0;
    assert(entries@ =~= entries_listed(list@.take(0)));
    while i < list.len()
        invariant
            i <= list@.len(),
            entries.wf(),
            entries@ == entries_listed(list@.take(i as int)),
        decreases list@.len() - i,
    {
        assert(list@.take(i + 1).drop_last() =~= list@.take(i as int));
        entries.put(list[i].0.as_str(), list[i].1);
        i = i + 1;
    }
    assert(list@.take(i as int) =~= list@);
    entries
}

/// The document that a list of sections gives.
pub fn doc_from_list(list: &Vec<(String, Vec<(String, u64)>)>) -> (doc: Doc)
    ensures
        doc.wf(),
        doc@ == sections_listed(list@),
{
    let mut doc = Doc::new();
    let mut i: usize = 0;
    assert(doc@ =~= sections_listed(list@.take(0)));
    while i < list.len()
        invariant
            i <= list@.len(),
            doc.wf(),
            doc@ == sections_listed(list@.take(i as int)),
        decreases list@.len() - i,
    {
        assert(list@.take(i + 1).drop_last() =~= list@.take(i as int));
        let entries = entries_from_list(&list[i].1);
        doc.put_section(list[i].0.as_str(), entries);
        i = i + 1;
    }
    assert(list@.take(i as int) =~= list@);
    doc
}

fn list_of_entries(entries: &TextMap<u64>) -> (list: Vec<(String, u64)>)
    requires
        entries.wf(),
    ensures
        entries_listed(list@) == entries@,
{
    let ghost keys = entries.keys();
    let ghost values = entries.values();
    let mut list: Vec<(String, u64)> = Vec::new();
    let mut i: usize = 0;
    while i < entries.len()
        invariant
            entries.wf(),
            keys == entries.keys(),
            values == entries.values(),
            i <= keys.len(),
            list@.len() == i,
            forall|j: int| 0 <= j < i ==> (#[trigger] list@[j]).0@ == keys[j] && list@[j].1 == values[j],
        decreases keys.len() - i,
    {
        list.push((entries.key_at(i).clone(), *entries.value_at(i)));
        i = i + 1;
    }
    proof {
        lemma_entries_listed(list@, keys, values);
        lemma_listed(keys, values);
        assert(keys.take(list@.len() as int) =~= keys);
        assert(entries_listed(list@) =~= entries@);
    }
    list
}

/// A list of entries in order is the map of its keys and values.
proof fn lemma_entries_listed(list: Seq<(String, u64)>, keys: Seq<Seq<char>>, values: Seq<u64>)
    requires
        increasing(keys),
        keys.len() == values.len(),
        list.len() <= keys.len(),
        forall|j: int|
            0 <= j < list.len() ==> (#[trigger] list[j]).0@ == keys[j] && list[j].1 == values[j],
    ensures
        forall|k: Seq<char>| #[trigger]
            entries_listed(list).dom().contains(k) <==> keys.take(list.len() as int).contains(k),
        forall|j: int| 0 <= j < list.len() ==> entries_listed(list)[#[trigger] keys[j]] == values[j],
    decreases list.len(),
{
    if list.len() == 0 {
        assert(keys.take(0) =~= Seq::<Seq<char>>::empty());
    } else {
        let n = list.len() - 1;
        let front = list.drop_last();
        lemma_entries_listed(front, keys, values);
        let was = keys.take(n);
        let now = keys.take(n + 1);
        assert(now =~= was.push(keys[n]));
        assert forall|k: Seq<char>| #[trigger]
            entries_listed(list).dom().contains(k) <==> now.contains(k) by {
            assert(entries_listed(front).dom().contains(k) <==> was.contains(k));
            if was.contains(k) {
                let j = choose|j: int| 0 <= j < was.len() && was[j] == k;
                assert(now[j] == k);
            }
            assert(now[n] == keys[n]);
        }
        assert forall|j: int| 0 <= j < list.len() implies entries_listed(list)[#[trigger] keys[j]]
            == values[j] by {
            if j < n && keys[j] == keys[n] {
                crate::maps::lemma_one_place(keys, j, n);
            }
        }
    }
}

fn list_of_sections(doc: &Doc) -> (list: Vec<(String, Vec<(String, u64)>)>)
    requires
        doc.wf(),
    ensures
        sections_listed(list@) == doc@,
{
    let ghost names = doc.names();
    let mut list: Vec<(String, Vec<(String, u64)>)> = Vec::new();
    let mut i: usize = 0;
    proof {
        doc.lemma_wf();
    }
    while i < doc.len()
        invariant
            doc.wf(),
            names == doc.names(),
            i <= names.len(),
            list@.len() == i,
            forall|j: int|
                0 <= j < i ==> (#[trigger] list@[j]).0@ == names[j] && entries_listed(list@[j].1@)
                    == doc@[names[j]],
        decreases names.len() - i,
    {
        proof {
            doc.lemma_wf();
        }
        let entries = list_of_entries(doc.sections.value_at(i));
        assert(doc@.dom().contains(names[i as int]));
        list.push((doc.name_at(i).clone(), entries));
        i = i + 1;
    }
    proof {
        lemma_sections_listed(list@, names, doc@);
        assert(names.take(list@.len() as int) =~= names);
        assert(sections_listed(list@) =~= doc@);
    }
    list
}

proof fn lemma_sections_listed(
    list: Seq<(String, Vec<(String, u64)>)>,
    names: Seq<Seq<char>>,
    doc: Map<Seq<char>, Map<Seq<char>, u64>>,
)
    requires
        increasing(names),
        list.len() <= names.len(),
        forall|j: int|
            0 <= j < list.len() ==> (#[trigger] list[j]).0@ == names[j] && entries_listed(list[j].1@)
                == doc[names[j]],
    ensures
        forall|k: Seq<char>| #[trigger]
            sections_listed(list).dom().contains(k) <==> names.take(list.len() as int).contains(k),
        forall|j: int|
            0 <= j < list.len() ==> sections_listed(list)[#[trigger] names[j]] == doc[names[j]],
    decreases list.len(),
{
    if list.len() == 0 {
        assert(names.take(0) =~= Seq::<Seq<char>>::empty());
    } else {
        let n = list.len() - 1;
        let front = list.drop_last();
        lemma_sections_listed(front, names, doc);
        let was = names.take(n);
        let now = names.take(n + 1);
        assert(now =~= was.push(names[n]));
        assert forall|k: Seq<char>| #[trigger]
            sections_listed(list).dom().contains(k) <==> now.contains(k) by {
            assert(sections_listed(front).dom().contains(k) <==> was.contains(k));
            if was.contains(k) {
                let j = choose|j: int| 0 <= j < was.len() && was[j] == k;
                assert(now[j] == k);
            }
            assert(now[n] == names[n]);
        }
        assert forall|j: int| 0 <= j < list.len() implies sections_listed(list)[#[trigger] names[j]]
            == doc[names[j]] by {
            if j < n && names[j] == names[n] {
                crate::maps::lemma_one_place(names, j, n);
            }
        }
    }
}

/// Reads a baseline text; one that cannot be read holds nothing.
pub fn read_doc(text: &str) -> (doc: Doc)
    ensures
        doc.wf(),
        doc@ == doc_read(text@),
{
    match list_from_toml(text) {
        Some(list) => doc_from_list(&list),
        None => Doc::new(),
    }
}

/// The baseline text of a document, which reads as the document again.
pub fn write_doc(doc: &Doc) -> (text: String)
    requires
        doc.wf(),
    ensures
        text@ == counts_toml(doc@),
        toml_counts(text@) == Some(doc@),
{
    let list = list_of_sections(doc);
    let text = toml_from_list(list);
    text.unwrap()
}

/// The key a finding is counted under.
pub open spec fn entry_key(lint: Seq<char>, file: Seq<char>) -> Seq<char> {
    lint + ":"@ + file
}

/// The key a finding is counted under.
pub fn entry(lint: &str, file: &str) -> (key: String)
    ensures
        key@ == entry_key(lint@, file@),
{
    lint.to_owned().concat(":").concat(file)
}

/// The names of the sections of a document, in their order.
pub open spec fn section_names(doc: Map<Seq<char>, Map<Seq<char>, u64>>) -> Seq<Seq<char>> {
    choose|names: Seq<Seq<char>>|
        increasing(names) && (forall|s: Seq<char>| #[trigger]
            names.contains(s) <==> doc.dom().contains(s))
}

/// The count of an entry, zero if there is none.
pub open spec fn count_of(entries: Map<Seq<char>, u64>, key: Seq<char>) -> nat {
    if entries.dom().contains(key) {
        entries[key] as nat
    } else {
        0
    }
}

/// The count of an entry, summed over some sections.
pub open spec fn total_over(
    doc: Map<Seq<char>, Map<Seq<char>, u64>>,
    names: Seq<Seq<char>>,
    key: Seq<char>,
) -> nat
    decreases names.len(),
{
    if names.len() == 0 {
        0
    } else {
        total_over(doc, names.drop_last(), key) + count_of(entries_of(doc, names.last()), key)
    }
}

/// The count of an entry, summed over every section: a key can appear under
/// more than one, for a file that two targets share.
pub open spec fn total(doc: Map<Seq<char>, Map<Seq<char>, u64>>, key: Seq<char>) -> nat {
    total_over(doc, section_names(doc), key)
}

/// Whether some section has the entry.
pub open spec fn has_entry(doc: Map<Seq<char>, Map<Seq<char>, u64>>, key: Seq<char>) -> bool {
    exists|s: Seq<char>| #[trigger] doc.dom().contains(s) && doc[s].dom().contains(key)
}

/// Whether the total of every entry can be counted in a `usize`.
pub open spec fn totals_fit(doc: Map<Seq<char>, Map<Seq<char>, u64>>) -> bool {
    forall|key: Seq<char>| key.contains(':') ==> #[trigger] total(doc, key) <= usize::MAX
}

/// What a document records for a lint and a file.
pub open spec fn recorded_count(
    doc: Map<Seq<char>, Map<Seq<char>, u64>>,
    lint: Seq<char>,
    file: Seq<char>,
) -> Option<nat> {
    if !lint.contains(':') && has_entry(doc, entry_key(lint, file)) {
        Some(total(doc, entry_key(lint, file)))
    } else {
        None
    }
}

/// `(lint, file) -> count`, summed over every section of a baseline.
pub struct Recorded {
    by_entry: TextMap<usize>,
}

impl Recorded {
    pub closed spec fn wf(&self) -> bool {
        self.by_entry.wf()
    }

    /// The count of a lint and a file.
    pub closed spec fn count(&self, lint: Seq<char>, file: Seq<char>) -> Option<nat> {
        if !lint.contains(':') && self.by_entry@.dom().contains(entry_key(lint, file)) {
            Some(self.by_entry@[entry_key(lint, file)] as nat)
        } else {
            None
        }
    }

    /// The count of a lint and a file.
    pub fn get(&self, lint: &str, file: &str) -> (count: Option<usize>)
        requires
            self.wf(),
        ensures
            match count {
                Some(count) => self.count(lint@, file@) == Some(count as nat),
                None => self.count(lint@, file@) is None,
            },
    {
        proof {
            lemma_cut(lint@, ':');
        }
        match split_once(lint, ':') {
            Some(_) => {
                assert(lint@[cut(lint@, ':')] == ':');
                None
            },
            None => {
                assert(!lint@.contains(':'));
                let key = entry(lint, file);
                match self.by_entry.get(key.as_str()) {
                    Some(count) => Some(*count),
                    None => None,
                }
            },
        }
    }
}

/// The sum so far of an entry, zero if there is none.
spec fn sum_of(sums: Map<Seq<char>, usize>, key: Seq<char>) -> nat {
    if sums.dom().contains(key) {
        sums[key] as nat
    } else {
        0
    }
}

/// Adds the entries of one section to the sums, or `None` if a sum is past
/// what can be counted.
fn add_section(sums: TextMap<usize>, entries: &TextMap<u64>) -> (out: Option<TextMap<usize>>)
    requires
        sums.wf(),
        entries.wf(),
    ensures
        match out {
            Some(out) => {
                &&& out.wf()
                &&& forall|k: Seq<char>|
                    k.contains(':') ==> #[trigger] sum_of(out@, k) == sum_of(sums@, k) + count_of(
                        entries@,
                        k,
                    )
                &&& forall|k: Seq<char>| #[trigger]
                    out@.dom().contains(k) <==> sums@.dom().contains(k) || (k.contains(':')
                        && entries@.dom().contains(k))
            },
            None => exists|k: Seq<char>|
                k.contains(':') && #[trigger] sum_of(sums@, k) + count_of(entries@, k) > usize::MAX,
        },
{
    let ghost keys = entries.keys();
    let ghost values = entries.values();
    let ghost start = sums@;
    let mut out = sums;
    let mut i: usize = 0;
    assert(keys.take(0) =~= Seq::<Seq<char>>::empty());
    proof {
        lemma_listed(keys, values);
    }
    while i < entries.len()
        invariant
            entries.wf(),
            keys == entries.keys(),
            values == entries.values(),
            start == sums@,
            i <= keys.len(),
            out.wf(),
            forall|k: Seq<char>|
                k.contains(':') ==> #[trigger] sum_of(out@, k) == sum_of(start, k) + (
                if keys.take(i as int).contains(k) {
                    count_of(entries@, k)
                } else {
                    0
                }),
            forall|k: Seq<char>| #[trigger]
                out@.dom().contains(k) <==> start.dom().contains(k) || (k.contains(':')
                    && keys.take(i as int).contains(k)),
        decreases keys.len() - i,
    {
        let key = entries.key_at(i);
        let n: u64 = *entries.value_at(i);
        let ghost was = keys.take(i as int);
        let ghost now = keys.take(i + 1);
        proof {
            lemma_listed(keys, values);
            lemma_cut(key@, ':');
            assert(now =~= was.push(key@));
            assert(count_of(entries@, key@) == n);
            assert(now[i as int] == key@);
            assert forall|k: Seq<char>| #[trigger]
                now.contains(k) <==> was.contains(k) || k == key@ by {
                if was.contains(k) {
                    let j = choose|j: int| 0 <= j < was.len() && was[j] == k;
                    assert(now[j] == k);
                }
            }
            if was.contains(key@) {
                let j = choose|j: int| 0 <= j < was.len() && was[j] == key@;
                crate::maps::lemma_one_place(keys, j, i as int);
            }
        }
        let ghost before = out@;
        match split_once(key.as_str(), ':') {
            None => {
                assert(!key@.contains(':'));
            },
            Some(_) => {
                assert(key@[cut(key@, ':')] == ':');
                assert(key@.contains(':'));
                let so_far: usize = match out.get(key.as_str()) {
                    Some(sum) => *sum,
                    None => 0,
                };
                assert(so_far == sum_of(out@, key@));
                if n > (usize::MAX - so_far) as u64 {
                    assert(sum_of(start, key@) + count_of(entries@, key@) > usize::MAX);
                    return None;
                }
                out.put(key.as_str(), so_far + n as usize);
                assert forall|k: Seq<char>| k.contains(':') implies #[trigger] sum_of(out@, k)
                    == sum_of(start, k) + (if now.contains(k) {
                    count_of(entries@, k)
                } else {
                    0
                }) by {
                    assert(sum_of(before, k) == sum_of(start, k) + (if was.contains(k) {
                        count_of(entries@, k)
                    } else {
                        0
                    }));
                }
            },
        }
        i = i + 1;
    }
    assert(keys.take(i as int) =~= keys);
    Some(out)
}

/// The names of a document's sections are the ones in order.
pub proof fn lemma_section_names(doc: Map<Seq<char>, Map<Seq<char>, u64>>, names: Seq<Seq<char>>)
    requires
        increasing(names),
        forall|s: Seq<char>| #[trigger] names.contains(s) <==> doc.dom().contains(s),
    ensures
        section_names(doc) == names,
{
    let chosen = section_names(doc);
    assert forall|t: Seq<char>| chosen.contains(t) <==> #[trigger] names.contains(t) by {
        assert(chosen.contains(t) <==> doc.dom().contains(t));
    }
    same_texts_are_listed_alike(chosen, names);
}

proof fn lemma_total_grows(
    doc: Map<Seq<char>, Map<Seq<char>, u64>>,
    names: Seq<Seq<char>>,
    n: int,
    key: Seq<char>,
)
    requires
        0 <= n <= names.len(),
    ensures
        total_over(doc, names.take(n), key) <= total_over(doc, names, key),
    decreases names.len() - n,
{
    if n < names.len() {
        lemma_total_grows(doc, names, n + 1, key);
        assert(names.take(n + 1).drop_last() =~= names.take(n));
    } else {
        assert(names.take(n) =~= names);
    }
}

/// Whether one of the named sections has the entry.
spec fn has_entry_in(
    doc: Map<Seq<char>, Map<Seq<char>, u64>>,
    names: Seq<Seq<char>>,
    key: Seq<char>,
) -> bool {
    exists|i: int| 0 <= i < names.len() && entries_of(doc, #[trigger] names[i]).dom().contains(key)
}

/// Sums a document over its sections, or `None` if a total is past what can
/// be counted.
pub fn recorded_in(doc: &Doc) -> (recorded: Option<Recorded>)
    requires
        doc.wf(),
    ensures
        match recorded {
            Some(recorded) => {
                &&& totals_fit(doc@)
                &&& recorded.wf()
                &&& forall|lint: Seq<char>, file: Seq<char>| #[trigger]
                    recorded.count(lint, file) == recorded_count(doc@, lint, file)
            },
            None => !totals_fit(doc@),
        },
{
    let ghost names = doc.names();
    let mut sums: TextMap<usize> = TextMap::new();
    let mut i: usize = 0;
    assert(names.take(0) =~= Seq::<Seq<char>>::empty());
    proof {
        doc.lemma_wf();
        lemma_section_names(doc@, names);
    }
    while i < doc.len()
        invariant
            doc.wf(),
            names == doc.names(),
            section_names(doc@) == names,
            i <= names.len(),
            sums.wf(),
            forall|k: Seq<char>|
                k.contains(':') ==> #[trigger] sum_of(sums@, k) == total_over(
                    doc@,
                    names.take(i as int),
                    k,
                ),
            forall|k: Seq<char>| #[trigger]
                sums@.dom().contains(k) <==> k.contains(':') && has_entry_in(
                    doc@,
                    names.take(i as int),
                    k,
                ),
        decreases names.len() - i,
    {
        let ghost was = names.take(i as int);
        let ghost now = names.take(i + 1);
        let ghost before = sums@;
        proof {
            doc.lemma_wf();
            assert(now.drop_last() =~= was);
            assert(now.last() == names[i as int]);
        }
        let entries = doc.sections.value_at(i);
        assert(entries@ == entries_of(doc@, names[i as int])) by {
            assert(doc@.dom().contains(names[i as int]));
        }
        match add_section(sums, entries) {
            Some(next) => {
                sums = next;
            },
            None => {
                proof {
                    let k = choose|k: Seq<char>|
                        k.contains(':') && #[trigger] sum_of(before, k) + count_of(entries@, k)
                            > usize::MAX;
                    assert(total_over(doc@, now, k) > usize::MAX);
                    lemma_total_grows(doc@, names, i + 1, k);
                    assert(total(doc@, k) > usize::MAX);
                }
                return None;
            },
        }
        proof {
            assert forall|k: Seq<char>| k.contains(':') implies #[trigger] sum_of(sums@, k)
                == total_over(doc@, now, k) by {
                assert(sum_of(before, k) == total_over(doc@, was, k));
            }
            assert forall|k: Seq<char>| #[trigger]
                sums@.dom().contains(k) <==> k.contains(':') && has_entry_in(doc@, now, k) by {
                assert(before.dom().contains(k) <==> k.contains(':') && has_entry_in(doc@, was, k));
                if has_entry_in(doc@, was, k) {
                    let j = choose|j: int|
                        0 <= j < was.len() && entries_of(doc@, #[trigger] was[j]).dom().contains(k);
                    assert(now[j] == was[j]);
                }
                if entries@.dom().contains(k) {
                    assert(entries_of(doc@, now[i as int]).dom().contains(k));
                }
                if has_entry_in(doc@, now, k) {
                    let j = choose|j: int|
                        0 <= j < now.len() && entries_of(doc@, #[trigger] now[j]).dom().contains(k);
                    if j < i {
                        assert(was[j] == now[j]);
                    }
                }
            }
        }
        i = i + 1;
    }
    let recorded = Recorded { by_entry: sums };
    proof {
        doc.lemma_wf();
        assert(names.take(i as int) =~= names);
        assert forall|key: Seq<char>| key.contains(':') implies #[trigger] total(doc@, key)
            <= usize::MAX by {
            assert(sum_of(sums@, key) == total_over(doc@, names, key));
        }
        assert forall|lint: Seq<char>, file: Seq<char>| #[trigger]
            recorded.count(lint, file) == recorded_count(doc@, lint, file) by {
            let key = entry_key(lint, file);
            reveal_strlit(":");
            assert(key[lint.len() as int] == ':');
            assert(sums@.dom().contains(key) <==> has_entry_in(doc@, names, key));
            assert(sum_of(sums@, key) == total_over(doc@, names, key));
            if has_entry_in(doc@, names, key) {
                let j = choose|j: int|
                    0 <= j < names.len() && entries_of(doc@, #[trigger] names[j]).dom().contains(
                        key,
                    );
                assert(doc@.dom().contains(names[j]));
            }
            if has_entry(doc@, key) {
                let s = choose|s: Seq<char>| #[trigger]
                    doc@.dom().contains(s) && doc@[s].dom().contains(key);
                assert(names.contains(s));
                let j = choose|j: int| 0 <= j < names.len() && names[j] == s;
                assert(entries_of(doc@, names[j]).dom().contains(key));
            }
        }
    }
    Some(recorded)
}

/// Sums a baseline text over its sections, or `None` if a total is past what
/// can be counted.
pub fn recorded(text: &str) -> (recorded: Option<Recorded>)
    ensures
        match recorded {
            Some(recorded) => {
                &&& totals_fit(doc_read(text@))
                &&& recorded.wf()
                &&& forall|lint: Seq<char>, file: Seq<char>| #[trigger]
                    recorded.count(lint, file) == recorded_count(doc_read(text@), lint, file)
            },
            None => !totals_fit(doc_read(text@)),
        },
{
    let doc = read_doc(text);
    recorded_in(&doc)
}

/// The baseline named `file_name` that is found from `dir` upward, as the
/// directory it is in and its path. `present` says which paths exist. When
/// the run records, the baseline may not exist yet, and then belongs beside
/// the `mordant.toml` that named it.
pub open spec fn found_from(
    dir: Seq<char>,
    file_name: Seq<char>,
    record: bool,
    present: Seq<Seq<char>>,
) -> Option<(Seq<char>, Seq<char>)>
    decreases dir.len(),
{
    if present.contains(joined_path(dir, file_name)) || (record && present.contains(
        joined_path(dir, "mordant.toml"@),
    )) {
        Some((dir, joined_path(dir, file_name)))
    } else {
        match directory(dir) {
            Some(up) => if up.len() < dir.len() {
                found_from(up, file_name, record, present)
            } else {
                None
            },
            None => None,
        }
    }
}

/// The baseline named `file_name`, as `(the directory it is in, its path)`:
/// the first one found from `dir` upward. `present` holds the paths that
/// exist.
pub fn find(dir: &str, file_name: &str, record: bool, present: &TextSet) -> (found: Option<
    (String, String),
>)
    requires
        present.wf(),
    ensures
        match found {
            Some((at, path)) => found_from(dir@, file_name@, record, present.listed()) == Some(
                (at@, path@),
            ),
            None => found_from(dir@, file_name@, record, present.listed()) is None,
        },
{
    let mut at = dir.to_owned();
    loop
        invariant
            present.wf(),
            found_from(dir@, file_name@, record, present.listed()) == found_from(
                at@,
                file_name@,
                record,
                present.listed(),
            ),
        decreases at@.len(),
    {
        let path = join_path(at.as_str(), file_name);
        let config = join_path(at.as_str(), "mordant.toml");
        if present.has(path.as_str()) || (record && present.has(config.as_str())) {
            return Some((at, path));
        }
        proof {
            lemma_directory_is_shorter(at@);
        }
        match directory_of(at.as_str()) {
            Some(up) => {
                at = up;
            },
            None => {
                return None;
            },
        }
    }
}

/// The paths that [`find`] looks at.
pub open spec fn looked_at(dir: Seq<char>, file_name: Seq<char>) -> Seq<Seq<char>>
    decreases dir.len(),
{
    let here = seq![joined_path(dir, file_name), joined_path(dir, "mordant.toml"@)];
    match directory(dir) {
        Some(up) => if up.len() < dir.len() {
            here + looked_at(up, file_name)
        } else {
            here
        },
        None => here,
    }
}

/// The paths that [`find`] looks at, from `dir` upward.
pub fn candidates(dir: &str, file_name: &str) -> (paths: Vec<String>)
    ensures
        views(paths@) == looked_at(dir@, file_name@),
{
    let mut at = dir.to_owned();
    let mut paths: Vec<String> = Vec::new();
    assert(views(paths@) + looked_at(dir@, file_name@) =~= looked_at(dir@, file_name@));
    loop
        invariant
            views(paths@) + looked_at(at@, file_name@) == looked_at(dir@, file_name@),
        decreases at@.len(),
    {
        let ghost before = views(paths@);
        let baseline = join_path(at.as_str(), file_name);
        let config = join_path(at.as_str(), "mordant.toml");
        paths.push(baseline);
        paths.push(config);
        let ghost here = seq![baseline@, config@];
        assert(views(paths@) =~= before + here);
        proof {
            lemma_directory_is_shorter(at@);
        }
        match directory_of(at.as_str()) {
            Some(up) => {
                assert(before + (here + looked_at(up@, file_name@)) =~= views(paths@) + looked_at(
                    up@,
                    file_name@,
                ));
                at = up;
            },
            None => {
                return paths;
            },
        }
    }
}

/// [`find`] looks at no other path: what exists elsewhere does not matter.
pub proof fn find_looks_at_its_candidates(
    dir: Seq<char>,
    file_name: Seq<char>,
    record: bool,
    present: Seq<Seq<char>>,
    other: Seq<Seq<char>>,
)
    requires
        forall|path: Seq<char>| #[trigger]
            looked_at(dir, file_name).contains(path) ==> (present.contains(path)
                == other.contains(path)),
    ensures
        found_from(dir, file_name, record, present) == found_from(dir, file_name, record, other),
    decreases dir.len(),
{
    let all = looked_at(dir, file_name);
    assert(all[0] == joined_path(dir, file_name));
    assert(all[1] == joined_path(dir, "mordant.toml"@));
    assert(all.contains(all[0]) && all.contains(all[1]));
    lemma_directory_is_shorter(dir);
    if let Some(up) = directory(dir) {
        let rest = looked_at(up, file_name);
        assert forall|path: Seq<char>| #[trigger] rest.contains(path) implies present.contains(path)
            == other.contains(path) by {
            let k = choose|k: int| 0 <= k < rest.len() && rest[k] == path;
            assert(all[k + 2] == path);
            assert(all.contains(path));
        }
        find_looks_at_its_candidates(up, file_name, record, present, other);
    }
}

/// The text to write for a baseline that holds `existing`, with `edit`
/// applied to what it holds.
pub fn update<F: FnOnce(Doc) -> Doc>(existing: &str, edit: F) -> (text: String)
    requires
        forall|doc: Doc| doc.wf() && doc@ == doc_read(existing@) ==> edit.requires((doc,)),
        forall|doc: Doc, out: Doc| edit.ensures((doc,), out) ==> out.wf(),
    ensures
        exists|doc: Doc, out: Doc|
            {
                &&& doc.wf()
                &&& doc@ == doc_read(existing@)
                &&& #[trigger] edit.ensures((doc,), out)
                &&& text@ == counts_toml(out@)
                &&& doc_read(text@) == out@
            },
{
    let doc = read_doc(existing);
    let ghost was = doc;
    let out = edit(doc);
    assert(edit.ensures((was,), out));
    write_doc(&out)
}

/// The target directory that `CARGO_TARGET_DIR` names, given the variable's
/// value. Cargo treats an empty value as unset.
pub fn cargo_target_dir(value: Option<String>) -> (dir: Option<String>)
    ensures
        dir == (if value is Some && value->0@.len() > 0 {
            value
        } else {
            None
        }),
{
    match value {
        Some(dir) => if dir.as_str().unicode_len() > 0 {
            Some(dir)
        } else {
            None
        },
        None => None,
    }
}

/// `<target>/mordant/over-baseline.txt`, where the target is `target_dir`, or
/// else `target` under the workspace root; a relative one is taken from the
/// root.
pub open spec fn status_path(root: Seq<char>, target_dir: Option<Seq<char>>) -> Seq<char> {
    let target = match target_dir {
        Some(dir) => joined_path(root, dir),
        None => joined_path(root, "target"@),
    };
    joined_path(joined_path(target, "mordant"@), "over-baseline.txt"@)
}

pub fn status_file(root: &str, target_dir: Option<&str>) -> (path: String)
    ensures
        path@ == status_path(
            root@,
            match target_dir {
                Some(dir) => Some(dir@),
                None => None,
            },
        ),
{
    let target = match target_dir {
        Some(dir) => join_path(root, dir),
        None => join_path(root, "target"),
    };
    let dir = join_path(target.as_str(), "mordant");
    join_path(dir.as_str(), "over-baseline.txt")
}

/// The words of [`over_message`].
pub open spec fn over_words(
    lint: Seq<char>,
    file: Seq<char>,
    found: nat,
    allowed: nat,
) -> Seq<char> {
    "mordant: "@ + decimal(found) + " `"@ + lint + "` findings in "@ + file
        + ", and the baseline allows "@ + decimal(allowed)
        + ". The baseline holds a count, not which findings, so all "@ + decimal(found)
        + " are shown: any of them can be the new one"@
}

/// What a run says once for a lint and a file that are over the baseline,
/// under the findings it shows for them.
pub fn over_message(lint: &str, file: &str, found: usize, allowed: usize) -> (message: String)
    ensures
        message@ == over_words(lint@, file@, found as nat, allowed as nat),
{
    let found = count_text(found);
    let allowed = count_text(allowed);
    "mordant: ".to_owned().concat(found.as_str()).concat(" `").concat(lint).concat(
        "` findings in ",
    ).concat(file).concat(", and the baseline allows ").concat(allowed.as_str()).concat(
        ". The baseline holds a count, not which findings, so all ",
    ).concat(found.as_str()).concat(" are shown: any of them can be the new one")
}

/// Records that `name` went `over` its baseline, in the text of a status
/// file. Appended to, never truncated: every crate is its own process, so no
/// process knows it is the first.
pub fn append_status(contents: &mut String, name: &str, over: usize)
    ensures
        final(contents)@ == old(contents)@ + name@ + " "@ + decimal(over as nat) + "\n"@,
{
    let count = count_text(over);
    contents.append(name);
    contents.append(" ");
    contents.append(count.as_str());
    contents.append("\n");
}

proof fn lemma_total_without(
    doc: Map<Seq<char>, Map<Seq<char>, u64>>,
    names: Seq<Seq<char>>,
    k: int,
    key: Seq<char>,
)
    requires
        0 <= k < names.len(),
        names.no_duplicates(),
    ensures
        total_over(doc, names, key) == count_of(entries_of(doc, names[k]), key) + total_over(
            doc.remove(names[k]),
            names.remove(k),
            key,
        ),
    decreases names.len(),
{
    let less = doc.remove(names[k]);
    let rest = names.remove(k);
    if k == names.len() - 1 {
        assert(rest =~= names.drop_last());
        lemma_total_same(doc, less, rest, key, names[k]);
    } else {
        let front = names.drop_last();
        assert(front.no_duplicates()) by {
            assert forall|i: int, j: int|
                0 <= i < front.len() && 0 <= j < front.len() && i != j implies front[i]
                != front[j] by {
                assert(names[i] != names[j]);
            }
        }
        lemma_total_without(doc, front, k, key);
        assert(rest.drop_last() =~= front.remove(k));
        assert(rest.last() == names.last());
        assert(names[names.len() - 1] != names[k]);
    }
}

proof fn lemma_total_same(
    doc: Map<Seq<char>, Map<Seq<char>, u64>>,
    less: Map<Seq<char>, Map<Seq<char>, u64>>,
    names: Seq<Seq<char>>,
    key: Seq<char>,
    gone: Seq<char>,
)
    requires
        less == doc.remove(gone),
        !names.contains(gone),
    ensures
        total_over(doc, names, key) == total_over(less, names, key),
    decreases names.len(),
{
    if names.len() > 0 {
        let front = names.drop_last();
        assert(!front.contains(gone)) by {
            if front.contains(gone) {
                let k = choose|k: int| 0 <= k < front.len() && front[k] == gone;
                assert(names[k] == gone);
            }
        }
        lemma_total_same(doc, less, front, key, gone);
        assert(names.contains(names[names.len() - 1]));
    }
}

/// The count of an entry is what one section records and what the others do
/// together: it is summed over every section. `names` are the sections, in
/// order.
pub proof fn a_count_is_summed_over_the_sections(
    doc: Map<Seq<char>, Map<Seq<char>, u64>>,
    names: Seq<Seq<char>>,
    k: int,
    key: Seq<char>,
)
    requires
        increasing(names),
        forall|s: Seq<char>| #[trigger] names.contains(s) <==> doc.dom().contains(s),
        0 <= k < names.len(),
    ensures
        total(doc, key) == total(doc.remove(names[k]), key) + if doc[names[k]].dom().contains(key) {
            doc[names[k]][key] as nat
        } else {
            0
        },
{
    let rest = names.remove(k);
    let less = doc.remove(names[k]);
    assert(names.no_duplicates()) by {
        assert forall|i: int, j: int|
            0 <= i < names.len() && 0 <= j < names.len() && i != j implies names[i] != names[j] by {
            text_before_irreflexive(names[i]);
            if i < j {
                assert(text_before(names[i], names[j]));
            } else {
                assert(text_before(names[j], names[i]));
            }
        }
    }
    assert forall|i: int, j: int| 0 <= i < j < rest.len() implies text_before(
        #[trigger] rest[i],
        #[trigger] rest[j],
    ) by {
        let a = if i < k {
            i
        } else {
            i + 1
        };
        let b = if j < k {
            j
        } else {
            j + 1
        };
        assert(rest[i] == names[a] && rest[j] == names[b]);
    }
    assert forall|s: Seq<char>| #[trigger] rest.contains(s) <==> less.dom().contains(s) by {
        if rest.contains(s) {
            let i = choose|i: int| 0 <= i < rest.len() && rest[i] == s;
            let a = if i < k {
                i
            } else {
                i + 1
            };
            assert(names[a] == s);
            assert(names.contains(s));
            assert(names[a] != names[k]);
        }
        if less.dom().contains(s) {
            assert(names.contains(s));
            let a = choose|a: int| 0 <= a < names.len() && names[a] == s;
            if a < k {
                assert(rest[a] == s);
            } else {
                assert(rest[a - 1] == s);
            }
        }
    }
    lemma_section_names(doc, names);
    lemma_section_names(less, rest);
    lemma_total_without(doc, names, k, key);
    assert(names.contains(names[k]));
}

/// A document without sections records nothing, and one records a count for a
/// lint and a file exactly when some section has an entry for them.
pub proof fn a_count_is_recorded_where_a_section_has_an_entry(
    doc: Map<Seq<char>, Map<Seq<char>, u64>>,
    lint: Seq<char>,
    file: Seq<char>,
)
    requires
        !lint.contains(':'),
    ensures
        recorded_count(doc, lint, file) is Some <==> exists|s: Seq<char>| #[trigger]
            doc.dom().contains(s) && doc[s].dom().contains(lint + ":"@ + file),
        recorded_count(doc, lint, file) matches Some(count) ==> count == total(
            doc,
            lint + ":"@ + file,
        ),
        total(Map::empty(), lint + ":"@ + file) == 0,
{
    let none = Map::<Seq<char>, Map<Seq<char>, u64>>::empty();
    let names = Seq::<Seq<char>>::empty();
    assert forall|s: Seq<char>| #[trigger] names.contains(s) <==> none.dom().contains(s) by {}
    lemma_section_names(none, names);
}

/// The entries of two lints or two files are told apart.
pub proof fn an_entry_is_of_one_lint_and_file(
    lint: Seq<char>,
    file: Seq<char>,
    other: Seq<char>,
    path: Seq<char>,
)
    requires
        !lint.contains(':'),
        !other.contains(':'),
        entry_key(lint, file) == entry_key(other, path),
    ensures
        lint == other,
        file == path,
{
    reveal_strlit(":");
    assert(":"@ =~= seq![':']);
    assert(entry_key(lint, file) =~= lint.push(':') + file);
    assert(entry_key(other, path) =~= other.push(':') + path);
    lemma_cut_after(lint, ':', file);
    lemma_cut_after(other, ':', path);
}

/// The baseline that is found is the nearest: the one in the directory itself,
/// and where there is none there, the one found from the directory above. A
/// run that writes takes a directory with the configuration for one with the
/// baseline.
pub proof fn the_nearest_baseline_is_found(
    dir: Seq<char>,
    file_name: Seq<char>,
    record: bool,
    present: Seq<Seq<char>>,
)
    ensures
        present.contains(joined_path(dir, file_name)) ==> found_from(
            dir,
            file_name,
            record,
            present,
        ) == Some((dir, joined_path(dir, file_name))),
        record && present.contains(joined_path(dir, "mordant.toml"@)) ==> found_from(
            dir,
            file_name,
            record,
            present,
        ) == Some((dir, joined_path(dir, file_name))),
        !present.contains(joined_path(dir, file_name)) && !(record && present.contains(
            joined_path(dir, "mordant.toml"@),
        )) ==> found_from(dir, file_name, record, present) == match directory(dir) {
            Some(up) => found_from(up, file_name, record, present),
            None => None,
        },
        found_from(dir, file_name, record, present) matches Some((at, path)) ==> path
            == joined_path(at, file_name) && (present.contains(path) || (record
            && present.contains(joined_path(at, "mordant.toml"@)))),
    decreases dir.len(),
{
    lemma_directory_is_shorter(dir);
    if let Some(up) = directory(dir) {
        the_nearest_baseline_is_found(up, file_name, record, present);
    }
}

/// The status file is `mordant/over-baseline.txt` in the target directory: in
/// the one that is named, taken from the root if it is relative, and else in
/// `target` under the root.
pub proof fn the_status_file_lies_in_the_target_directory(root: Seq<char>, dir: Seq<char>)
    requires
        root.len() > 0,
        dir.len() > 0,
    ensures
        components(status_path(root, None)) == components(root) + seq![
            "target"@,
            "mordant"@,
            "over-baseline.txt"@,
        ],
        is_absolute(dir) ==> components(status_path(root, Some(dir))) == components(dir) + seq![
            "mordant"@,
            "over-baseline.txt"@,
        ],
        !is_absolute(dir) ==> components(status_path(root, Some(dir))) == components(
            joined_path(root, dir),
        ) + seq!["mordant"@, "over-baseline.txt"@],
{
    reveal_strlit("target");
    reveal_strlit("mordant");
    reveal_strlit("over-baseline.txt");
    reveal_strlit(".");
    assert("target"@.len() == 6 && "mordant"@.len() == 7 && "over-baseline.txt"@.len() == 17);
    lemma_one_component("target"@);
    lemma_one_component("mordant"@);
    lemma_one_component("over-baseline.txt"@);
    a_joined_path_has_the_components_of_both(root, "target"@);
    lemma_status_under(joined_path(root, "target"@));
    assert(components(root) + seq!["target"@] + seq!["mordant"@, "over-baseline.txt"@]
        =~= components(root) + seq!["target"@, "mordant"@, "over-baseline.txt"@]);
    lemma_status_under(joined_path(root, dir));
}

proof fn lemma_status_under(target: Seq<char>)
    requires
        target.len() > 0,
    ensures
        components(joined_path(joined_path(target, "mordant"@), "over-baseline.txt"@))
            == components(target) + seq!["mordant"@, "over-baseline.txt"@],
{
    reveal_strlit("mordant");
    reveal_strlit("over-baseline.txt");
    reveal_strlit(".");
    assert("mordant"@.len() == 7 && "over-baseline.txt"@.len() == 17);
    lemma_one_component("mordant"@);
    lemma_one_component("over-baseline.txt"@);
    a_joined_path_has_the_components_of_both(target, "mordant"@);
    a_joined_path_has_the_components_of_both(
        joined_path(target, "mordant"@),
        "over-baseline.txt"@,
    );
    assert(components(target) + seq!["mordant"@] + seq!["over-baseline.txt"@] =~= components(target)
        + seq!["mordant"@, "over-baseline.txt"@]);
}

proof fn lemma_one_component(name: Seq<char>)
    requires
        name.len() > 1,
        !name.contains('/'),
    ensures
        split(name, '/').filter(is_component()) == seq![name],
{
    reveal_strlit(".");
    lemma_cut_none(name, '/');
    assert(split(name, '/') =~= seq![name]);
    reveal(Seq::filter);
    assert(seq![name].drop_last() =~= Seq::<Seq<char>>::empty());
    assert(seq![name].last() == name);
    assert(Seq::<Seq<char>>::empty().filter(is_component()) =~= Seq::<Seq<char>>::empty());
    assert(Seq::<Seq<char>>::empty().push(name) =~= seq![name]);
}

} // verus!
