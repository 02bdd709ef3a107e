//! `<target>/mordant/over-baseline.txt`, which is written once the run is
//! judged. It holds one `<section> <count>` line for each compilation whose
//! findings went over the baseline count, and one for each section whose
//! `unused_pub` findings did, so a section can have two lines.

use vstd::prelude::*;
use vstd::string::*;
use vstd::utf8::encode_utf8;

use crate::files::{text_at, Files};
use crate::judge::{RunUnit, RunUnitView};
use crate::number::{count_text, decimal, decimal_is_digits, decimal_of, is_digit, sum_text};
use crate::order::{
    in_order_is_unique, is_text_before, sort, sorted, sorted_holds_the_same, sorted_is_in_order,
    text_before, text_before_irreflexive, text_before_total, Ordered,
};
use crate::paths::{
    a_file_lies_in_the_directory_it_is_joined_to, beside, beside_path, components, directory,
    file_name, file_name_of, is_absolute, joined_path, what_is_beside_a_file_lies_in_its_directory,
};
use crate::records::{
    only_written_counts_are_read, over_of_text, over_reads_back, read_over, Over, OverView, Unit,
    UnitView,
};
use crate::text::{
    concat, contains, join_with, joined, lemma_concat_first, lemma_joined_first, lemma_lines_first,
    lines, same, starts_with, viewed, views,
};

verus! {

/// One `<section> <count>` line of `over-baseline.txt`: a section and how
/// many of its findings are over its baseline count.
pub struct OverBaselineLine {
    pub section: String,
    pub count: usize,
}

/// What an [`OverBaselineLine`] says.
pub struct LineView {
    pub section: Seq<char>,
    pub count: nat,
}

impl View for OverBaselineLine {
    type V = LineView;

    open spec fn view(&self) -> LineView {
        LineView { section: self.section@, count: self.count as nat }
    }
}

impl LineView {
    /// The words of [`OverBaselineLine::summary`].
    pub open spec fn summary(self) -> Seq<char> {
        "mordant: "@ + decimal(self.count) + " finding(s) over the baseline in "@ + self.section
    }

    /// The bytes of the line.
    pub open spec fn text(self) -> Seq<char> {
        self.section + " "@ + decimal(self.count) + "\n"@
    }
}

impl OverBaselineLine {
    /// The text of the summary warning for this line's section:
    /// `mordant: <count> finding(s) over the baseline in <section>`.
    pub fn summary(&self) -> (text: String)
        ensures
            text@ == self@.summary(),
    {
        let count = count_text(self.count);
        "mordant: ".to_owned().concat(count.as_str()).concat(
            " finding(s) over the baseline in ",
        ).concat(self.section.as_str())
    }

    pub fn new(section: &str, count: usize) -> (line: OverBaselineLine)
        ensures
            line@ == (LineView { section: section@, count: count as nat }),
    {
        OverBaselineLine { section: section.to_owned(), count }
    }
}

impl Ordered for OverBaselineLine {
    /// By section, then by count.
    open spec fn before(a: LineView, b: LineView) -> bool {
        text_before(a.section, b.section) || (a.section == b.section && a.count < b.count)
    }

    proof fn not_before_transitive(a: LineView, b: LineView, c: LineView) {
        String::not_before_transitive(a.section, b.section, c.section);
        text_before_total(a.section, b.section);
        text_before_total(b.section, c.section);
    }

    proof fn before_asymmetric(a: LineView, b: LineView) {
        text_before_irreflexive(a.section);
        if text_before(a.section, b.section) {
            String::before_asymmetric(a.section, b.section);
        }
    }

    fn is_before(&self, other: &Self) -> (r: bool) {
        proof {
            text_before_irreflexive(self.section@);
        }
        if is_text_before(self.section.as_str(), other.section.as_str()) {
            true
        } else {
            same(self.section.as_str(), other.section.as_str()) && self.count < other.count
        }
    }
}

/// `over-baseline.txt`'s lines, sorted by section and then by count, so the
/// same counts always give the same bytes.
pub struct OverBaselineLines(Vec<OverBaselineLine>);

/// The bytes of `over-baseline.txt` for lines in their order.
pub open spec fn lines_text(lines: Seq<LineView>) -> Seq<char> {
    concat(lines.map_values(|line: LineView| line.text()))
}

impl OverBaselineLines {
    /// The lines, in their order.
    pub closed spec fn listed(&self) -> Seq<LineView> {
        viewed(self.0@)
    }

    pub fn new(lines: Vec<OverBaselineLine>) -> (sorted_lines: OverBaselineLines)
        ensures
            sorted_lines.listed() == sorted::<OverBaselineLine>(viewed(lines@)),
    {
        OverBaselineLines(sort(lines))
    }

    pub fn is_empty(&self) -> (r: bool)
        ensures
            r == (self.listed().len() == 0),
    {
        self.0.len() == 0
    }

    /// The bytes of `over-baseline.txt`: one `<section> <count>` line per
    /// entry, each with the end of its line.
    pub fn text(&self) -> (out: String)
        ensures
            out@ == lines_text(self.listed()),
    {
        let ghost texts = self.listed().map_values(|line: LineView| line.text());
        let mut out = String::new();
        let mut i: usize = 0;
        while i < self.0.len()
            invariant
                i <= self.0@.len(),
                texts == self.listed().map_values(|line: LineView| line.text()),
                out@ == concat(texts.take(i as int)),
            decreases self.0@.len() - i,
        {
            let ghost before = out@;
            let count = count_text(self.0[i].count);
            out.append(self.0[i].section.as_str());
            out.append(" ");
            out.append(count.as_str());
            out.append("\n");
            assert(texts[i as int] == self.0@[i as int]@.text());
            assert(out@ =~= before + texts[i as int]);
            assert(texts.take(i + 1).drop_last() =~= texts.take(i as int));
            assert(texts.take(i + 1).last() == texts[i as int]);
            i = i + 1;
        }
        assert(texts.take(i as int) =~= texts);
        out
    }
}

/// `a`, `a and b`, `a, b and c`.
pub open spec fn listed_in_words(items: Seq<Seq<char>>) -> Seq<char> {
    if items.len() == 0 {
        Seq::empty()
    } else if items.len() == 1 {
        items[0]
    } else {
        joined(items.drop_last(), ", "@) + " and "@ + items.last()
    }
}

/// `a`, `a and b`, `a, b and c`.
pub fn join(items: &Vec<String>) -> (out: String)
    ensures
        out@ == listed_in_words(views(items@)),
{
    let n = items.len();
    if n == 0 {
        let out = String::new();
        assert(out@ =~= Seq::<char>::empty());
        return out;
    }
    if n == 1 {
        return items[0].clone();
    }
    let mut head: Vec<String> = Vec::new();
    let mut i: usize = 0;
    while i < n - 1
        invariant
            n == items@.len(),
            n >= 2,
            i <= n - 1,
            views(head@) == views(items@).take(i as int),
        decreases n - i,
    {
        let ghost before = views(head@);
        head.push(items[i].clone());
        assert(views(head@) =~= before.push(items@[i as int]@));
        assert(views(items@).take(i + 1) =~= views(items@).take(i as int).push(items@[i as int]@));
        i = i + 1;
    }
    assert(views(items@).take(n - 1) =~= views(items@).drop_last());
    join_with(&head, ", ").concat(" and ").concat(items[n - 1].as_str())
}

/// The findings over the baseline, all lines together.
pub open spec fn count_over(lines: Seq<LineView>) -> nat
    decreases lines.len(),
{
    if lines.len() == 0 {
        0
    } else {
        count_over(lines.drop_last()) + lines.last().count
    }
}

/// The sections of the lines, each once and each in backticks, in the order
/// in which they first come.
pub open spec fn sections_named(lines: Seq<LineView>) -> Seq<Seq<char>>
    decreases lines.len(),
{
    if lines.len() == 0 {
        Seq::empty()
    } else {
        let before = sections_named(lines.drop_last());
        let name = "`"@ + lines.last().section + "`"@;
        if before.contains(name) {
            before
        } else {
            before.push(name)
        }
    }
}

/// The words of [`run_summary`].
pub open spec fn run_words(lines: Seq<LineView>) -> Seq<char> {
    "mordant: "@ + decimal(count_over(lines)) + " finding(s) over the baseline in "@
        + listed_in_words(sorted::<String>(sections_named(lines)))
}

/// The findings over the baseline, all lines together.
fn findings_over(lines: &Vec<OverBaselineLine>) -> (count: u128)
    ensures
        count == count_over(viewed(lines@)),
{
    let ghost all = viewed(lines@);
    let mut count: u128 = 0;
    let mut i: usize = 0;
    while i < lines.len()
        invariant
            i <= lines@.len(),
            all == viewed(lines@),
            count == count_over(all.take(i as int)),
            count <= i * 0xffff_ffff_ffff_ffff,
        decreases lines@.len() - i,
    {
        assert(all.take(i + 1).drop_last() =~= all.take(i as int));
        assert(all.take(i + 1).last() == lines@[i as int]@);
        count = count + lines[i].count as u128;
        i = i + 1;
    }
    assert(all.take(i as int) =~= all);
    count
}

/// The text of the closing error for a run where `lines` is not empty: the
/// count of findings over the baseline, all lines together, and each section
/// once, as `mordant: <count> finding(s) over the baseline in <sections>`.
pub fn run_summary(lines: &Vec<OverBaselineLine>) -> (text: String)
    ensures
        text@ == run_words(viewed(lines@)),
{
    let ghost all = viewed(lines@);
    let count = sum_text(findings_over(lines));
    let mut sections: Vec<String> = Vec::new();
    let mut i: usize = 0;
    assert(views(sections@) =~= sections_named(all.take(0)));
    while i < lines.len()
        invariant
            i <= lines@.len(),
            all == viewed(lines@),
            views(sections@) == sections_named(all.take(i as int)),
        decreases lines@.len() - i,
    {
        let ghost before = views(sections@);
        assert(all.take(i + 1).drop_last() =~= all.take(i as int));
        assert(all.take(i + 1).last() == lines@[i as int]@);
        let name = "`".to_owned().concat(lines[i].section.as_str()).concat("`");
        if !contains(&sections, name.as_str()) {
            sections.push(name);
            assert(views(sections@) =~= before.push(name@));
        }
        i = i + 1;
    }
    assert(all.take(i as int) =~= all);
    let sections = sort(sections);
    let named = join(&sections);
    "mordant: ".to_owned().concat(count.as_str()).concat(
        " finding(s) over the baseline in ",
    ).concat(named.as_str())
}

/// A path, and what the `.over` text of the file there says, if it says
/// anything.
pub open spec fn over_in(path: Seq<char>, text: Seq<char>) -> Option<(Seq<char>, OverView)> {
    match over_of_text(text) {
        Some(over) => Some((path, over)),
        None => None,
    }
}

/// The `.over` file of a unit and what it says. A test unit that has no file
/// is a target without a harness, which is built as the plain unit.
pub open spec fn over_of_unit(
    files: Map<Seq<char>, Seq<char>>,
    facts: Seq<char>,
    unit: UnitView,
) -> Option<(Seq<char>, OverView)> {
    match text_at(files, unit.over(facts)) {
        Some(text) => over_in(unit.over(facts), text),
        None => if unit.test {
            match text_at(files, unit.plain().over(facts)) {
                Some(text) => over_in(unit.plain().over(facts), text),
                None => None,
            }
        } else {
            None
        },
    }
}

/// The `.over` files that are read for the units.
pub open spec fn over_files(
    files: Map<Seq<char>, Seq<char>>,
    facts: Seq<char>,
    units: Seq<UnitView>,
) -> Seq<Seq<char>>
    decreases units.len(),
{
    if units.len() == 0 {
        Seq::empty()
    } else {
        let before = over_files(files, facts, units.drop_last());
        match over_of_unit(files, facts, units.last()) {
            Some((path, _)) => before.push(path),
            None => before,
        }
    }
}

/// A line for each `.over` file that holds a count, once for each file.
pub open spec fn counted_lines(
    files: Map<Seq<char>, Seq<char>>,
    facts: Seq<char>,
    units: Seq<UnitView>,
) -> Seq<LineView>
    decreases units.len(),
{
    if units.len() == 0 {
        Seq::empty()
    } else {
        let front = units.drop_last();
        let before = counted_lines(files, facts, front);
        match over_of_unit(files, facts, units.last()) {
            Some((path, OverView::Count { section, count })) => if over_files(
                files,
                facts,
                front,
            ).contains(path) {
                before
            } else {
                before.push(LineView { section, count })
            },
            _ => before,
        }
    }
}

/// The crate roots of the units without an `.over` file that says anything,
/// each once.
pub open spec fn uncounted(
    files: Map<Seq<char>, Seq<char>>,
    facts: Seq<char>,
    units: Seq<UnitView>,
) -> Seq<Seq<char>>
    decreases units.len(),
{
    if units.len() == 0 {
        Seq::empty()
    } else {
        let before = uncounted(files, facts, units.drop_last());
        if over_of_unit(files, facts, units.last()) is None && !before.contains(units.last().src) {
            before.push(units.last().src)
        } else {
            before
        }
    }
}

/// The units of the run and its build scripts.
pub open spec fn all_units(units: Seq<RunUnitView>, build_scripts: Seq<UnitView>) -> Seq<UnitView> {
    units.map_values(|u: RunUnitView| u.unit) + build_scripts
}

fn every_unit(units: &Vec<RunUnit>, build_scripts: &Vec<Unit>) -> (all: Vec<Unit>)
    ensures
        viewed(all@) == all_units(viewed(units@), viewed(build_scripts@)),
{
    let ghost want = all_units(viewed(units@), viewed(build_scripts@));
    let mut all: Vec<Unit> = Vec::new();
    let mut i: usize = 0;
    assert(viewed(all@) =~= want.take(0));
    while i < units.len()
        invariant
            want == all_units(viewed(units@), viewed(build_scripts@)),
            i <= units@.len(),
            viewed(all@) == want.take(i as int),
        decreases units@.len() - i,
    {
        let ghost before = viewed(all@);
        let unit = units[i].unit.copy();
        all.push(unit);
        assert(want[i as int] == unit@);
        assert(viewed(all@) =~= before.push(unit@));
        assert(want.take(i + 1) =~= want.take(i as int).push(unit@));
        i = i + 1;
    }
    let mut j: usize = 0;
    while j < build_scripts.len()
        invariant
            want == all_units(viewed(units@), viewed(build_scripts@)),
            j <= build_scripts@.len(),
            viewed(all@) == want.take(units@.len() + j),
        decreases build_scripts@.len() - j,
    {
        let ghost before = viewed(all@);
        let unit = build_scripts[j].copy();
        all.push(unit);
        assert(want[units@.len() + j] == unit@);
        assert(viewed(all@) =~= before.push(unit@));
        assert(want.take(units@.len() + j + 1) =~= want.take(units@.len() + j).push(unit@));
        j = j + 1;
    }
    assert(want.take(units@.len() + j) =~= want);
    all
}

/// Reads the `.over` file of a unit.
fn recorded_over(files: &Files, facts: &str, unit: &Unit) -> (found: Option<(String, Over)>)
    requires
        files.wf(),
    ensures
        match found {
            Some((path, over)) => over_of_unit(files@, facts@, unit@) == Some((path@, over@)),
            None => over_of_unit(files@, facts@, unit@) is None,
        },
{
    let path = unit.over(facts);
    if let Some(text) = files.read(path.as_str()) {
        return match read_over(text.as_str()) {
            Some(over) => Some((path, over)),
            None => None,
        };
    }
    if unit.test {
        let path = unit.plain().over(facts);
        if let Some(text) = files.read(path.as_str()) {
            return match read_over(text.as_str()) {
                Some(over) => Some((path, over)),
                None => None,
            };
        }
    }
    None
}

/// Reads the `.over` file of every unit of the run and of every build script,
/// from `files`, and returns a line for each one that holds a count of
/// findings over the baseline. `Err` lists the source file of each unit or
/// build script whose `.over` file is missing or holds something else, each
/// source file once.
///
/// Cargo builds a test target with `harness = false` without `--test`, so
/// when a test unit has no `.over` file, this reads the one written under the
/// same unit with `test` false. Cargo can build one target more than once in
/// a run, so each `.over` file adds its line once.
pub fn read_counts(
    facts: &str,
    units: &Vec<RunUnit>,
    build_scripts: &Vec<Unit>,
    files: &Files,
) -> (counts: Result<Vec<OverBaselineLine>, Vec<String>>)
    requires
        files.wf(),
    ensures
        ({
            let all = all_units(viewed(units@), viewed(build_scripts@));
            let missing = uncounted(files@, facts@, all);
            match counts {
                Ok(lines) => missing.len() == 0 && viewed(lines@) == counted_lines(
                    files@,
                    facts@,
                    all,
                ),
                Err(srcs) => missing.len() > 0 && views(srcs@) == missing,
            }
        }),
{
    let every = every_unit(units, build_scripts);
    let ghost all = viewed(every@);
    let mut lines: Vec<OverBaselineLine> = Vec::new();
    let mut missing: Vec<String> = Vec::new();
    let mut read: Vec<String> = Vec::new();
    let mut i: usize = 0;
    assert(viewed(lines@) =~= counted_lines(files@, facts@, all.take(0)));
    assert(views(missing@) =~= uncounted(files@, facts@, all.take(0)));
    assert(views(read@) =~= over_files(files@, facts@, all.take(0)));
    while i < every.len()
        invariant
            files.wf(),
            all == viewed(every@),
            i <= every@.len(),
            viewed(lines@) == counted_lines(files@, facts@, all.take(i as int)),
            views(missing@) == uncounted(files@, facts@, all.take(i as int)),
            views(read@) == over_files(files@, facts@, all.take(i as int)),
        decreases every@.len() - i,
    {
        let unit = &every[i];
        let ghost now = all.take(i + 1);
        assert(now.drop_last() =~= all.take(i as int));
        assert(now.last() == unit@);
        let ghost lines_before = viewed(lines@);
        let ghost missing_before = views(missing@);
        let ghost read_before = views(read@);
        match recorded_over(files, facts, unit) {
            Some((path, over)) => {
                if !contains(&read, path.as_str()) {
                    if let Over::Count { section, count } = over {
                        let line = OverBaselineLine::new(section.as_str(), count);
                        lines.push(line);
                        assert(viewed(lines@) =~= lines_before.push(line@));
                    }
                }
                read.push(path);
                assert(views(read@) =~= read_before.push(path@));
            },
            None => {
                if !contains(&missing, unit.src.as_str()) {
                    missing.push(unit.src.clone());
                    assert(views(missing@) =~= missing_before.push(unit@.src));
                }
            },
        }
        i = i + 1;
    }
    assert(all.take(i as int) =~= all);
    if missing.len() == 0 {
        Ok(lines)
    } else {
        Err(missing)
    }
}

/// The same counts give the same bytes, in whatever order they came.
pub proof fn same_counts_give_the_same_bytes(a: Seq<LineView>, b: Seq<LineView>)
    requires
        a.to_multiset() == b.to_multiset(),
    ensures
        lines_text(sorted::<OverBaselineLine>(a)) == lines_text(sorted::<OverBaselineLine>(b)),
{
    assert forall|x: LineView, y: LineView|
        !#[trigger] OverBaselineLine::before(x, y) && !OverBaselineLine::before(y, x) implies x
        == y by {
        text_before_total(x.section, y.section);
    }
    sorted_is_in_order::<OverBaselineLine>(a);
    sorted_is_in_order::<OverBaselineLine>(b);
    in_order_is_unique::<OverBaselineLine>(
        sorted::<OverBaselineLine>(a),
        sorted::<OverBaselineLine>(b),
    );
}

/// What `over-baseline.txt` is to be after a run.
pub enum Wanted {
    /// The run writes the baseline: the file stays as it was.
    AsItIs,
    /// Nothing is over the baseline: there is no file.
    Gone,
    /// The file holds this text. One that holds it already, and its
    /// modification time, stay unchanged.
    Text(String),
}

/// What `over-baseline.txt` is to hold for `lines`. A run that writes the
/// baseline leaves the file on disk as it was.
pub fn write_over_baseline(lines: Vec<OverBaselineLine>, write_mode: bool) -> (wanted: Wanted)
    ensures
        match wanted {
            Wanted::AsItIs => write_mode,
            Wanted::Gone => !write_mode && lines@.len() == 0,
            Wanted::Text(text) => !write_mode && lines@.len() > 0 && text@ == lines_text(
                sorted::<OverBaselineLine>(viewed(lines@)),
            ),
        },
{
    if write_mode {
        return Wanted::AsItIs;
    }
    proof {
        sorted_is_in_order::<OverBaselineLine>(viewed(lines@));
    }
    let lines = OverBaselineLines::new(lines);
    if lines.is_empty() {
        return Wanted::Gone;
    }
    Wanted::Text(lines.text())
}

/// Compares a text with the bytes of a file, as they are read one chunk after
/// the other, so that the whole file is never held in memory.
pub struct SameContents {
    expected: Vec<u8>,
    offset: usize,
    same: bool,
    fed: Ghost<Seq<u8>>,
}

impl SameContents {
    /// The bytes of the text.
    pub closed spec fn expected(&self) -> Seq<u8> {
        self.expected@
    }

    /// The bytes of the file so far.
    pub closed spec fn fed(&self) -> Seq<u8> {
        self.fed@
    }

    pub closed spec fn wf(&self) -> bool {
        &&& self.offset <= self.expected@.len()
        &&& self.same ==> self.fed@ == self.expected@.take(self.offset as int)
        &&& !self.same ==> !self.fed@.is_prefix_of(self.expected@)
    }

    /// Nothing of the file is read yet.
    pub fn new(text: &str) -> (comparison: SameContents)
        ensures
            comparison.wf(),
            comparison.expected() == encode_utf8(text@),
            comparison.fed() == Seq::<u8>::empty(),
    {
        let expected = text.as_bytes_vec();
        assert(expected@.take(0) =~= Seq::<u8>::empty());
        SameContents { expected, offset: 0, same: true, fed: Ghost(Seq::empty()) }
    }

    /// The next bytes of the file; whether it can still hold the text.
    pub fn chunk(&mut self, bytes: &[u8]) -> (r: bool)
        requires
            old(self).wf(),
        ensures
            final(self).wf(),
            final(self).expected() == old(self).expected(),
            final(self).fed() == old(self).fed() + bytes@,
            r == final(self).fed().is_prefix_of(final(self).expected()),
    {
        let ghost before = self.fed@;
        let ghost after = self.fed@ + bytes@;
        let ghost all = self.expected@;
        self.fed = Ghost(after);
        if !self.same {
            proof {
                if after.is_prefix_of(all) {
                    assert(before =~= after.take(before.len() as int));
                    assert(before =~= all.take(before.len() as int));
                    assert(before.is_prefix_of(all));
                }
            }
            return false;
        }
        assert(before.len() == self.offset);
        let n = bytes.len();
        if n > self.expected.len() - self.offset {
            self.same = false;
            return false;
        }
        let mut i: usize = 0;
        while i < n
            invariant
                n == bytes@.len(),
                i <= n,
                all == self.expected@,
                before == old(self).fed(),
                self.offset == before.len(),
                self.offset + n <= all.len(),
                all.len() <= usize::MAX,
                self.expected == old(self).expected,
                self.fed@ == after,
                self.same,
                before == all.take(self.offset as int),
                after == before + bytes@,
                forall|j: int| 0 <= j < i ==> bytes@[j] == all[self.offset + j],
            decreases n - i,
        {
            if bytes[i] != self.expected[self.offset + i] {
                proof {
                    assert(after[self.offset + i] == bytes@[i as int]);
                    if after.is_prefix_of(all) {
                        assert(after[self.offset + i] == all[self.offset + i]);
                    }
                }
                self.same = false;
                return false;
            }
            i = i + 1;
        }
        self.offset = self.offset + n;
        assert(after =~= all.take(self.offset as int));
        true
    }

    /// The file is read to its end: whether it holds the text.
    pub fn finish(&self) -> (r: bool)
        requires
            self.wf(),
        ensures
            r == (self.fed() == self.expected()),
    {
        proof {
            if self.same && self.offset == self.expected@.len() {
                assert(self.expected@.take(self.offset as int) =~= self.expected@);
            }
            if !self.same && self.fed@ == self.expected@ {
                assert(self.fed@.is_prefix_of(self.expected@));
            }
        }
        self.same && self.offset == self.expected.len()
    }
}

/// The temporary file that a path is written through, if the path has a file
/// name: `.<file name>.<process id>.tmp` next to it.
pub open spec fn temp_of(path: Seq<char>, process: nat) -> Option<Seq<char>> {
    match file_name(path) {
        Some(name) => Some(beside(path, "."@ + name + "."@ + decimal(process) + ".tmp"@)),
        None => None,
    }
}

/// The temporary file that `path` is written through, next to it, or `None`
/// when `path` has no file name.
pub fn temp_file(path: &str, process: u32) -> (tmp: Option<String>)
    ensures
        match tmp {
            Some(tmp) => temp_of(path@, process as nat) == Some(tmp@),
            None => temp_of(path@, process as nat) is None,
        },
{
    let name = match file_name_of(path) {
        Some(name) => name,
        None => {
            return None;
        },
    };
    let process = decimal_of(process as u64);
    let tmp = ".".to_owned().concat(name.as_str()).concat(".").concat(process.as_str()).concat(
        ".tmp",
    );
    Some(beside_path(path, tmp.as_str()))
}

/// What is said of an error at a path.
pub fn at_path(path: &str, err: &str) -> (message: String)
    ensures
        message@ == path@ + ": "@ + err@,
{
    path.to_owned().concat(": ").concat(err)
}

/// Whether a unit's own `.over` file, or where a test unit has none the plain
/// unit's, is the one at `path` and holds a count of findings.
pub open spec fn counts_at(
    files: Map<Seq<char>, Seq<char>>,
    facts: Seq<char>,
    unit: UnitView,
    path: Seq<char>,
    line: LineView,
) -> bool {
    &&& files.dom().contains(path)
    &&& files[path] == line.section + "\t"@ + decimal(line.count) + "\n"@
    &&& line.count <= usize::MAX
    &&& path == unit.over(facts) || (unit.test && !files.dom().contains(unit.over(facts)) && path
        == unit.plain().over(facts))
}

/// What is read of a unit is the count that its file holds.
proof fn lemma_counts_at(
    files: Map<Seq<char>, Seq<char>>,
    facts: Seq<char>,
    unit: UnitView,
    path: Seq<char>,
    section: Seq<char>,
    count: nat,
)
    requires
        over_of_unit(files, facts, unit) == Some((path, OverView::Count { section, count })),
    ensures
        counts_at(files, facts, unit, path, LineView { section, count }),
{
    only_written_counts_are_read(files[path], OverView::Count { section, count });
}

/// What a unit's file holds is what is read of the unit.
proof fn lemma_counts_are_read(
    files: Map<Seq<char>, Seq<char>>,
    facts: Seq<char>,
    unit: UnitView,
    path: Seq<char>,
    line: LineView,
)
    requires
        counts_at(files, facts, unit, path, line),
        !line.section.contains('\t'),
    ensures
        over_of_unit(files, facts, unit) == Some(
            (path, OverView::Count { section: line.section, count: line.count }),
        ),
{
    over_reads_back(OverView::Count { section: line.section, count: line.count });
}

/// The lines of a run are the counts of its units' files, one line for each
/// file: there are as many lines as files that hold a count, the files are all
/// different, each line is the section and the count of its file, and no file
/// of a unit that holds a count is without its line.
pub proof fn each_file_with_a_count_has_one_line(
    files: Map<Seq<char>, Seq<char>>,
    facts: Seq<char>,
    units: Seq<UnitView>,
) -> (paths: Seq<Seq<char>>)
    ensures
        paths.len() == counted_lines(files, facts, units).len(),
        paths.no_duplicates(),
        forall|k: int|
            0 <= k < paths.len() ==> is_count_of_some(
                files,
                facts,
                units,
                #[trigger] paths[k],
                counted_lines(files, facts, units)[k],
            ),
        forall|i: int, path: Seq<char>, line: LineView|
            0 <= i < units.len() && #[trigger] counts_at(files, facts, units[i], path, line)
                && !line.section.contains('\t') ==> paths.contains(path) && counted_lines(
                files,
                facts,
                units,
            ).contains(line),
{
    let paths = lemma_paths_of_lines(files, facts, units);
    let lines = counted_lines(files, facts, units);
    assert forall|i: int, path: Seq<char>, line: LineView|
        0 <= i < units.len() && #[trigger] counts_at(files, facts, units[i], path, line)
            && !line.section.contains('\t') implies paths.contains(path) && lines.contains(
        line,
    ) by {
        lemma_counts_are_read(files, facts, units[i], path, line);
        lemma_over_files(files, facts, units, i);
        assert(over_files(files, facts, units).contains(path));
        let k = choose|k: int| 0 <= k < paths.len() && paths[k] == path;
        assert(is_count_of_some(files, facts, units, paths[k], lines[k]));
        let j = choose|j: int|
            0 <= j < units.len() && counts_at(files, facts, #[trigger] units[j], path, lines[k]);
        assert(over_of_text(files[path]) == Some(
            OverView::Count { section: lines[k].section, count: lines[k].count },
        ));
        assert(lines[k] == line);
    }
    paths
}

/// Whether the file at `path` is one that is read for some unit, and holds the
/// count of `line`.
pub open spec fn is_count_of_some(
    files: Map<Seq<char>, Seq<char>>,
    facts: Seq<char>,
    units: Seq<UnitView>,
    path: Seq<char>,
    line: LineView,
) -> bool {
    exists|i: int|
        0 <= i < units.len() && counts_at(files, facts, #[trigger] units[i], path, line)
}

proof fn lemma_over_files(
    files: Map<Seq<char>, Seq<char>>,
    facts: Seq<char>,
    units: Seq<UnitView>,
    i: int,
)
    requires
        0 <= i < units.len(),
        over_of_unit(files, facts, units[i]) is Some,
    ensures
        over_files(files, facts, units).contains((over_of_unit(files, facts, units[i])->0).0),
    decreases units.len(),
{
    let all = over_files(files, facts, units);
    let path = (over_of_unit(files, facts, units[i])->0).0;
    if i == units.len() - 1 {
        assert(all[all.len() - 1] == path);
    } else {
        let front = units.drop_last();
        let before = over_files(files, facts, front);
        assert(front[i] == units[i]);
        lemma_over_files(files, facts, front, i);
        let k = choose|k: int| 0 <= k < before.len() && before[k] == path;
        assert(all[k] == path);
    }
}

proof fn lemma_paths_of_lines(
    files: Map<Seq<char>, Seq<char>>,
    facts: Seq<char>,
    units: Seq<UnitView>,
) -> (paths: Seq<Seq<char>>)
    ensures
        paths.len() == counted_lines(files, facts, units).len(),
        paths.no_duplicates(),
        forall|k: int|
            0 <= k < paths.len() ==> is_count_of_some(
                files,
                facts,
                units,
                #[trigger] paths[k],
                counted_lines(files, facts, units)[k],
            ),
        forall|k: int|
            0 <= k < paths.len() ==> over_files(files, facts, units).contains(#[trigger] paths[k])
                && over_of_text(files[paths[k]]) == Some(
                OverView::Count {
                    section: counted_lines(files, facts, units)[k].section,
                    count: counted_lines(files, facts, units)[k].count,
                },
            ),
        forall|path: Seq<char>|
            over_files(files, facts, units).contains(path) && (#[trigger] over_of_text(
                files[path],
            ) matches Some(OverView::Count { .. })) ==> paths.contains(path),
    decreases units.len(),
{
    if units.len() == 0 {
        Seq::empty()
    } else {
        let front = units.drop_last();
        let last = units.last();
        let paths = lemma_paths_of_lines(files, facts, front);
        let before = counted_lines(files, facts, front);
        let lines = counted_lines(files, facts, units);
        let old_files = over_files(files, facts, front);
        let all = over_files(files, facts, units);
        assert forall|p: Seq<char>| old_files.contains(p) implies #[trigger] all.contains(p) by {
            let k = choose|k: int| 0 <= k < old_files.len() && old_files[k] == p;
            assert(all[k] == p);
        }
        assert forall|p: Seq<char>| #[trigger] all.contains(p) implies old_files.contains(p) || (
        over_of_unit(files, facts, last) matches Some((path, _)) && path == p) by {
            let k = choose|k: int| 0 <= k < all.len() && all[k] == p;
            if k < old_files.len() {
                assert(old_files[k] == p);
            }
        }
        let adds = match over_of_unit(files, facts, last) {
            Some((path, OverView::Count { section, count })) => !old_files.contains(path),
            _ => false,
        };
        let out = if adds {
            paths.push((over_of_unit(files, facts, last)->0).0)
        } else {
            paths
        };
        assert forall|k: int| 0 <= k < out.len() implies is_count_of_some(
            files,
            facts,
            units,
            #[trigger] out[k],
            lines[k],
        ) by {
            if k < paths.len() {
                assert(out[k] == paths[k] && lines[k] == before[k]);
                assert(is_count_of_some(files, facts, front, paths[k], before[k]));
                let i = choose|i: int|
                    0 <= i < front.len() && counts_at(
                        files,
                        facts,
                        #[trigger] front[i],
                        paths[k],
                        before[k],
                    );
                assert(counts_at(files, facts, units[i], out[k], lines[k]));
            } else {
                lemma_counts_at(files, facts, last, out[k], lines[k].section, lines[k].count);
                assert(counts_at(files, facts, units[units.len() - 1], out[k], lines[k]));
            }
        }
        if adds {
            let path = (over_of_unit(files, facts, last)->0).0;
            assert(all[all.len() - 1] == path);
            if paths.contains(path) {
                let k = choose|k: int| 0 <= k < paths.len() && paths[k] == path;
                assert(old_files.contains(paths[k]));
            }
        }
        assert forall|k: int| 0 <= k < out.len() implies all.contains(#[trigger] out[k])
            && over_of_text(files[out[k]]) == Some(
            OverView::Count { section: lines[k].section, count: lines[k].count },
        ) by {
            if k < paths.len() {
                assert(out[k] == paths[k] && lines[k] == before[k]);
                assert(old_files.contains(paths[k]));
            } else {
                assert(all[all.len() - 1] == out[k]);
            }
        }
        assert forall|path: Seq<char>|
            all.contains(path) && (#[trigger] over_of_text(files[path]) matches Some(
                OverView::Count { .. },
            )) implies out.contains(path) by {
            if old_files.contains(path) {
                assert(paths.contains(path));
                let k = choose|k: int| 0 <= k < paths.len() && paths[k] == path;
                assert(out[k] == path);
            } else {
                assert(out[out.len() - 1] == path);
            }
        }
        out
    }
}

/// Where a unit's count is: in its own `.over` file, or where a test unit has
/// none, in the plain unit's.
pub open spec fn count_path(
    files: Map<Seq<char>, Seq<char>>,
    facts: Seq<char>,
    unit: UnitView,
) -> Seq<char> {
    if unit.test && !files.dom().contains(unit.over(facts)) {
        unit.plain().over(facts)
    } else {
        unit.over(facts)
    }
}

/// A unit has its count read exactly when its own `.over` file, or where a
/// test unit has none the plain unit's, is there and is what is written for a
/// count or for none.
pub proof fn a_count_is_read_where_it_was_written(
    files: Map<Seq<char>, Seq<char>>,
    facts: Seq<char>,
    unit: UnitView,
)
    ensures
        ({
            let path = count_path(files, facts, unit);
            over_of_unit(files, facts, unit) is Some <==> files.dom().contains(path) && (
            files[path].len() == 0 || exists|line: LineView|
                !line.section.contains('\t') && #[trigger] counts_at(
                    files,
                    facts,
                    unit,
                    path,
                    line,
                ))
        }),
{
    let path = count_path(files, facts, unit);
    if let Some((at, over)) = over_of_unit(files, facts, unit) {
        if let OverView::Count { section, count } = over {
            lemma_counts_at(files, facts, unit, at, section, count);
            let line = LineView { section, count };
            crate::text::lemma_cut(files[at].drop_last(), '\t');
            assert(!section.contains('\t'));
            assert(counts_at(files, facts, unit, path, line));
        }
    }
    if exists|line: LineView|
        !line.section.contains('\t') && #[trigger] counts_at(files, facts, unit, path, line) {
        let line = choose|line: LineView|
            !line.section.contains('\t') && #[trigger] counts_at(files, facts, unit, path, line);
        lemma_counts_are_read(files, facts, unit, path, line);
    }
}

/// The crate roots without a count are those of the units whose count is not
/// read, each once.
pub proof fn the_units_without_a_count_are_named(
    files: Map<Seq<char>, Seq<char>>,
    facts: Seq<char>,
    units: Seq<UnitView>,
)
    ensures
        uncounted(files, facts, units).no_duplicates(),
        forall|i: int|
            0 <= i < units.len() && over_of_unit(files, facts, #[trigger] units[i]) is None
                ==> uncounted(files, facts, units).contains(units[i].src),
        forall|src: Seq<char>| #[trigger]
            uncounted(files, facts, units).contains(src) ==> exists|i: int|
                0 <= i < units.len() && (#[trigger] units[i]).src == src && over_of_unit(
                    files,
                    facts,
                    units[i],
                ) is None,
    decreases units.len(),
{
    if units.len() > 0 {
        let front = units.drop_last();
        let before = uncounted(files, facts, front);
        let all = uncounted(files, facts, units);
        the_units_without_a_count_are_named(files, facts, front);
        assert forall|x: Seq<char>| before.contains(x) implies #[trigger] all.contains(x) by {
            let k = choose|k: int| 0 <= k < before.len() && before[k] == x;
            assert(all[k] == x);
        }
        assert forall|i: int|
            0 <= i < units.len() && over_of_unit(
                files,
                facts,
                #[trigger] units[i],
            ) is None implies all.contains(units[i].src) by {
            if i < front.len() {
                assert(front[i] == units[i]);
                assert(before.contains(units[i].src));
            } else if !before.contains(units[i].src) {
                assert(all[all.len() - 1] == units[i].src);
            }
        }
        assert forall|src: Seq<char>| #[trigger] all.contains(src) implies exists|i: int|
            0 <= i < units.len() && (#[trigger] units[i]).src == src && over_of_unit(
                files,
                facts,
                units[i],
            ) is None by {
            if before.contains(src) {
                let i = choose|i: int|
                    0 <= i < front.len() && (#[trigger] front[i]).src == src && over_of_unit(
                        files,
                        facts,
                        front[i],
                    ) is None;
                assert(units[i].src == src);
            } else {
                let k = choose|k: int| 0 <= k < all.len() && all[k] == src;
                if k < before.len() {
                    assert(before[k] == src);
                }
                assert(units[units.len() - 1].src == src);
            }
        }
    }
}

/// The run's own units and its build scripts all count: each is one of the
/// units whose counts are read.
pub proof fn every_unit_and_build_script_is_counted(
    units: Seq<RunUnitView>,
    build_scripts: Seq<UnitView>,
    unit: UnitView,
)
    ensures
        all_units(units, build_scripts).contains(unit) <==> build_scripts.contains(unit) || exists|
            i: int,
        |
            0 <= i < units.len() && (#[trigger] units[i]).unit == unit,
        all_units(units, build_scripts).len() == units.len() + build_scripts.len(),
{
    let all = all_units(units, build_scripts);
    if all.contains(unit) {
        let k = choose|k: int| 0 <= k < all.len() && all[k] == unit;
        if k < units.len() {
            assert(units[k].unit == unit);
        } else {
            assert(build_scripts[k - units.len()] == unit);
        }
    }
    if build_scripts.contains(unit) {
        let k = choose|k: int| 0 <= k < build_scripts.len() && build_scripts[k] == unit;
        assert(all[units.len() + k] == unit);
    }
    if exists|i: int| 0 <= i < units.len() && (#[trigger] units[i]).unit == unit {
        let i = choose|i: int| 0 <= i < units.len() && (#[trigger] units[i]).unit == unit;
        assert(all[i] == unit);
    }
}

/// The closing count is the sum of the lines' counts: of no lines it is none,
/// of one its count, and of two runs of lines the two together.
pub proof fn counts_over_add_up(a: Seq<LineView>, b: Seq<LineView>)
    ensures
        count_over(a + b) == count_over(a) + count_over(b),
        count_over(Seq::empty()) == 0,
        a.len() == 1 ==> count_over(a) == a[0].count,
    decreases b.len(),
{
    if b.len() == 0 {
        assert(a + b =~= a);
    } else {
        counts_over_add_up(a, b.drop_last());
        assert((a + b).drop_last() =~= a + b.drop_last());
    }
    if a.len() == 1 {
        assert(count_over(a.drop_last()) == 0);
    }
}

/// The sections named in the closing error are those of the lines, each once.
pub proof fn the_sections_of_the_lines_are_named_once(lines: Seq<LineView>)
    ensures
        sections_named(lines).no_duplicates(),
        forall|i: int|
            0 <= i < lines.len() ==> sections_named(lines).contains(
                "`"@ + (#[trigger] lines[i]).section + "`"@,
            ),
        forall|name: Seq<char>| #[trigger]
            sections_named(lines).contains(name) ==> exists|i: int|
                0 <= i < lines.len() && name == "`"@ + (#[trigger] lines[i]).section + "`"@,
    decreases lines.len(),
{
    if lines.len() > 0 {
        let front = lines.drop_last();
        let before = sections_named(front);
        let all = sections_named(lines);
        let last = "`"@ + lines.last().section + "`"@;
        the_sections_of_the_lines_are_named_once(front);
        assert forall|x: Seq<char>| before.contains(x) implies #[trigger] all.contains(x) by {
            let k = choose|k: int| 0 <= k < before.len() && before[k] == x;
            assert(all[k] == x);
        }
        assert(all.contains(last)) by {
            if !before.contains(last) {
                assert(all[all.len() - 1] == last);
            }
        }
        assert forall|i: int| 0 <= i < lines.len() implies all.contains(
            "`"@ + (#[trigger] lines[i]).section + "`"@,
        ) by {
            if i < front.len() {
                assert(front[i] == lines[i]);
                assert(before.contains("`"@ + front[i].section + "`"@));
            }
        }
        assert forall|name: Seq<char>| #[trigger] all.contains(name) implies exists|i: int|
            0 <= i < lines.len() && name == "`"@ + (#[trigger] lines[i]).section + "`"@ by {
            if before.contains(name) {
                let i = choose|i: int|
                    0 <= i < front.len() && name == "`"@ + (#[trigger] front[i]).section + "`"@;
                assert(lines[i] == front[i]);
            } else {
                let k = choose|k: int| 0 <= k < all.len() && all[k] == name;
                if k < before.len() {
                    assert(before[k] == name);
                }
                assert(name == "`"@ + lines[lines.len() - 1].section + "`"@);
            }
        }
    }
}

/// `over-baseline.txt` holds a line for each of the lines and no other, sorted
/// by section and then by count: read a line at a time it is the section, a
/// space and the count of each.
pub proof fn the_status_file_reads_as_its_lines(lines_in: Seq<LineView>)
    requires
        forall|i: int| 0 <= i < lines_in.len() ==> !(#[trigger] lines_in[i]).section.contains('\n'),
    ensures
        ({
            let listed = sorted::<OverBaselineLine>(lines_in);
            let read = lines(lines_text(listed));
            &&& listed.to_multiset() == lines_in.to_multiset()
            &&& read.len() == lines_in.len()
            &&& forall|i: int|
                0 <= i < listed.len() ==> #[trigger] read[i] == listed[i].section + " "@ + decimal(
                    listed[i].count,
                )
            &&& forall|i: int, j: int|
                0 <= i < j < listed.len() ==> !text_before(
                    (#[trigger] listed[j]).section,
                    (#[trigger] listed[i]).section,
                ) && (listed[i].section == listed[j].section ==> listed[i].count
                    <= listed[j].count)
        }),
{
    let listed = sorted::<OverBaselineLine>(lines_in);
    sorted_is_in_order::<OverBaselineLine>(lines_in);
    assert forall|i: int| 0 <= i < listed.len() implies !(
    #[trigger] listed[i]).section.contains('\n') by {
        assert(listed.contains(listed[i]));
        sorted_holds_the_same::<OverBaselineLine>(lines_in, listed[i]);
        let k = choose|k: int| 0 <= k < lines_in.len() && lines_in[k] == listed[i];
        assert(!lines_in[k].section.contains('\n'));
    }
    lemma_lines_of_text(listed);
    assert forall|i: int, j: int| 0 <= i < j < listed.len() implies !text_before(
        (#[trigger] listed[j]).section,
        (#[trigger] listed[i]).section,
    ) && (listed[i].section == listed[j].section ==> listed[i].count <= listed[j].count) by {
        assert(!OverBaselineLine::before(listed[j], listed[i]));
    }
}

proof fn lemma_lines_of_text(listed: Seq<LineView>)
    requires
        forall|i: int| 0 <= i < listed.len() ==> !(#[trigger] listed[i]).section.contains('\n'),
    ensures
        lines(lines_text(listed)).len() == listed.len(),
        forall|i: int|
            0 <= i < listed.len() ==> #[trigger] lines(lines_text(listed))[i] == listed[i].section
                + " "@ + decimal(listed[i].count),
    decreases listed.len(),
{
    let texts = listed.map_values(|line: LineView| line.text());
    if listed.len() > 0 {
        let rest = listed.skip(1);
        assert forall|i: int| 0 <= i < rest.len() implies !(
        #[trigger] rest[i]).section.contains('\n') by {
            assert(rest[i] == listed[i + 1]);
        }
        lemma_lines_of_text(rest);
        lemma_concat_first(texts);
        assert(texts.skip(1) =~= rest.map_values(|line: LineView| line.text()));
        reveal_strlit("\n");
        reveal_strlit(" ");
        let first = listed[0];
        let line = first.section + " "@ + decimal(first.count);
        assert("\n"@ =~= seq!['\n']);
        assert(texts[0] =~= line.push('\n'));
        decimal_is_digits(first.count);
        let digits = decimal(first.count);
        assert(digits.len() > 0 && line.last() == digits[digits.len() - 1]);
        assert(is_digit(digits[digits.len() - 1]));
        assert(!line.contains('\n')) by {
            if line.contains('\n') {
                let k = choose|k: int| 0 <= k < line.len() && line[k] == '\n';
                if k < first.section.len() {
                    assert(first.section[k] == '\n');
                } else if k > first.section.len() {
                    assert(is_digit(digits[k - first.section.len() - 1]));
                }
            }
        }
        lemma_lines_first(line, lines_text(rest));
        assert forall|i: int| 0 <= i < listed.len() implies #[trigger] lines(
            lines_text(listed),
        )[i] == listed[i].section + " "@ + decimal(listed[i].count) by {
            if i > 0 {
                assert(rest[i - 1] == listed[i]);
            }
        }
    } else {
        assert(lines(lines_text(listed)) =~= Seq::<Seq<char>>::empty());
    }
}

/// Items in words: two are joined by `and`, and each one more stands in front
/// with a comma behind it.
pub proof fn items_in_words_have_an_and_before_the_last(
    first: Seq<char>,
    second: Seq<char>,
    rest: Seq<Seq<char>>,
)
    ensures
        listed_in_words(seq![first, second]) == first + " and "@ + second,
        rest.len() >= 2 ==> listed_in_words(seq![first] + rest) == first + ", "@ + listed_in_words(
            rest,
        ),
        listed_in_words(seq![first]) == first,
{
    let two = seq![first, second];
    assert(two.drop_last() =~= seq![first]);
    assert(joined(seq![first], ", "@) =~= first);
    if rest.len() >= 2 {
        let all = seq![first] + rest;
        let heads = all.drop_last();
        assert(heads =~= seq![first] + rest.drop_last());
        assert(heads.skip(1) =~= rest.drop_last());
        lemma_joined_first(heads, ", "@);
        assert(listed_in_words(all) =~= first + ", "@ + listed_in_words(rest));
    }
}

/// The temporary file of a path lies in the path's directory, hidden, under
/// the path's name, the process and an ending of its own.
pub proof fn a_temporary_file_lies_beside_its_path(dir: Seq<char>, name: Seq<char>, process: nat)
    requires
        dir.len() > 0,
        name.len() > 0,
        !name.contains('/'),
        name != "."@,
        name != ".."@,
    ensures
        ({
            let own = "."@ + name + "."@ + decimal(process) + ".tmp"@;
            &&& temp_of(joined_path(dir, name), process) matches Some(tmp) && file_name(tmp)
                == Some(own) && (directory(tmp) matches Some(at) && components(at) == components(
                dir,
            ) && is_absolute(at) == is_absolute(dir))
            &&& own != name
        }),
{
    let own = "."@ + name + "."@ + decimal(process) + ".tmp"@;
    reveal_strlit(".");
    reveal_strlit("..");
    reveal_strlit(".tmp");
    decimal_is_digits(process);
    assert(own.len() > name.len() + 2);
    assert(!own.contains('/')) by {
        if own.contains('/') {
            let k = choose|k: int| 0 <= k < own.len() && own[k] == '/';
            let a = 1 + name.len() as int;
            let b = a + 1 + decimal(process).len();
            if 1 <= k < a {
                assert(name[k - 1] == '/');
            } else if a < k < b {
                assert(is_digit(decimal(process)[k - a - 1]));
            } else if k >= b {
                assert(".tmp"@[k - b] == '/');
            }
        }
    }
    a_file_lies_in_the_directory_it_is_joined_to(dir, name);
    what_is_beside_a_file_lies_in_its_directory(dir, name, own);
}

/// A section's summary starts with its count and ends with its name, and the
/// run's starts with the sum of all counts and ends with every section's name,
/// in order.
pub proof fn a_summary_says_the_count_and_the_section(line: LineView, all: Seq<LineView>)
    ensures
        starts_with(line.summary(), "mordant: "@ + decimal(line.count) + " finding(s) "@),
        line.summary().len() >= line.section.len() && line.summary().skip(
            line.summary().len() - line.section.len(),
        ) == line.section,
        starts_with(run_words(all), "mordant: "@ + decimal(count_over(all)) + " finding(s) "@),
        ({
            let names = listed_in_words(sorted::<String>(sections_named(all)));
            run_words(all).len() >= names.len() && run_words(all).skip(
                run_words(all).len() - names.len(),
            ) == names
        }),
{
    reveal_strlit(" finding(s) ");
    reveal_strlit(" finding(s) over the baseline in ");
    let one = "mordant: "@ + decimal(line.count) + " finding(s) "@;
    let sum = "mordant: "@ + decimal(count_over(all)) + " finding(s) "@;
    let names = listed_in_words(sorted::<String>(sections_named(all)));
    assert(line.summary().take(one.len() as int) =~= one);
    assert(run_words(all).take(sum.len() as int) =~= sum);
    assert(line.summary().skip(line.summary().len() - line.section.len()) =~= line.section);
    assert(run_words(all).skip(run_words(all).len() - names.len()) =~= names);
}

} // verus!
