//! Which `pub` items a run found unused: every item a unit of the run
//! recorded, against every use any unit of the run recorded.

use vstd::prelude::*;

use crate::files::{text_at, Files};
use crate::order::{
    in_order, is_text_before, lemma_prefix_between, sort, sorted, sorted_holds_the_same,
    sorted_is_in_order, text_before, text_before_irreflexive, text_before_total, Ordered,
};
use crate::records::{
    crate_of, def_views, defs_of_text, keeps_to_line, lemma_crate_prefix,
    position_tells_places_apart, read_defs, read_refs, refs_read_back, refs_text, well_keyed, Def,
    DefView, Defs, DefsView, Unit, UnitView,
};
use crate::sets::TextSet;
use crate::text::{lines, same, viewed, views};

verus! {

/// A unit of the run, as cargo's artifact message named it.
pub struct RunUnit {
    pub unit: Unit,
    pub package_id: String,
    pub manifest_path: String,
    /// The target, in cargo's JSON.
    pub target: String,
}

/// What a [`RunUnit`] is.
pub struct RunUnitView {
    pub unit: UnitView,
    pub package_id: Seq<char>,
    pub manifest_path: Seq<char>,
    pub target: Seq<char>,
}

impl View for RunUnit {
    type V = RunUnitView;

    open spec fn view(&self) -> RunUnitView {
        RunUnitView {
            unit: self.unit@,
            package_id: self.package_id@,
            manifest_path: self.manifest_path@,
            target: self.target@,
        }
    }
}

/// An item that a unit of the run defines.
pub struct Finding {
    pub def: Def,
    /// The baseline section of the compilation that defined the item.
    pub section: String,
    /// The place of that compilation's unit in the run.
    pub unit: usize,
}

/// What a [`Finding`] says.
pub struct FindingView {
    pub def: DefView,
    pub section: Seq<char>,
    pub unit: int,
}

impl View for Finding {
    type V = FindingView;

    open spec fn view(&self) -> FindingView {
        FindingView { def: self.def@, section: self.section@, unit: self.unit as int }
    }
}

/// What the run's records say.
pub enum Records {
    /// The crate roots of units that left no record. Judging without one
    /// would call everything they use unused.
    Missing(Vec<String>),
    Judged {
        unused: Vec<Finding>,
        /// The section of every unit that defines items, found unused or
        /// not: the ones whose baseline entries this run decides.
        sections: TextSet,
    },
}

/// Whether every finding is in a section that the run judged.
pub open spec fn in_sections(findings: Seq<FindingView>, sections: Seq<Seq<char>>) -> bool {
    forall|i: int| 0 <= i < findings.len() ==> sections.contains((#[trigger] findings[i]).section)
}

impl Records {
    /// Whether every item found is in a section that the run judged.
    pub open spec fn wf(&self) -> bool {
        self matches Records::Judged { unused, sections } ==> sections.wf() && in_sections(
            viewed(unused@),
            sections.listed(),
        )
    }
}

/// The keys that a unit recorded as used. A test target without a harness is
/// built as the plain unit.
pub open spec fn refs_of(
    files: Map<Seq<char>, Seq<char>>,
    facts: Seq<char>,
    unit: UnitView,
) -> Option<Seq<Seq<char>>> {
    match text_at(files, unit.refs(facts)) {
        Some(text) => Some(lines(text)),
        None => if unit.test {
            match text_at(files, unit.plain().refs(facts)) {
                Some(text) => Some(lines(text)),
                None => None,
            }
        } else {
            None
        },
    }
}

/// The keys that any unit of the run recorded as used.
pub open spec fn used_keys(
    files: Map<Seq<char>, Seq<char>>,
    facts: Seq<char>,
    units: Seq<RunUnitView>,
) -> Set<Seq<char>> {
    Set::new(|key: Seq<char>| uses(files, facts, units, key))
}

pub open spec fn uses(
    files: Map<Seq<char>, Seq<char>>,
    facts: Seq<char>,
    units: Seq<RunUnitView>,
    key: Seq<char>,
) -> bool {
    exists|i: int|
        0 <= i < units.len() && unit_uses(files, facts, #[trigger] units[i], key)
}

pub open spec fn unit_uses(
    files: Map<Seq<char>, Seq<char>>,
    facts: Seq<char>,
    unit: RunUnitView,
    key: Seq<char>,
) -> bool {
    refs_of(files, facts, unit.unit) matches Some(keys) && keys.contains(key)
}

/// The crate roots of the units that recorded no uses, in the order of the
/// run.
pub open spec fn without_record(
    files: Map<Seq<char>, Seq<char>>,
    facts: Seq<char>,
    units: Seq<RunUnitView>,
) -> Seq<Seq<char>>
    decreases units.len(),
{
    if units.len() == 0 {
        Seq::empty()
    } else {
        let before = without_record(files, facts, units.drop_last());
        if refs_of(files, facts, units.last().unit) is None {
            before.push(units.last().unit.src)
        } else {
            before
        }
    }
}

/// What a unit recorded of the items it defines, if its items are judged.
pub open spec fn judged_defs(
    files: Map<Seq<char>, Seq<char>>,
    facts: Seq<char>,
    judged: Seq<Seq<char>>,
    unit: RunUnitView,
) -> Option<DefsView> {
    if judged.contains(unit.package_id) {
        match text_at(files, unit.unit.defs(facts)) {
            Some(text) => defs_of_text(text),
            None => None,
        }
    } else {
        None
    }
}

/// A unit's items as findings.
pub open spec fn as_findings(defs: DefsView, unit: int) -> Seq<FindingView> {
    Seq::new(
        defs.defs.len(),
        |k: int| FindingView { def: defs.defs[k], section: defs.section, unit },
    )
}

/// Every item a judged unit defines, in the order of the run.
pub open spec fn found_items(
    files: Map<Seq<char>, Seq<char>>,
    facts: Seq<char>,
    judged: Seq<Seq<char>>,
    units: Seq<RunUnitView>,
) -> Seq<FindingView>
    decreases units.len(),
{
    if units.len() == 0 {
        Seq::empty()
    } else {
        let before = found_items(files, facts, judged, units.drop_last());
        match judged_defs(files, facts, judged, units.last()) {
            Some(defs) => before + as_findings(defs, units.len() - 1),
            None => before,
        }
    }
}

/// Whether a judged unit's items belong to `section`.
pub open spec fn judged_section(
    files: Map<Seq<char>, Seq<char>>,
    facts: Seq<char>,
    judged: Seq<Seq<char>>,
    units: Seq<RunUnitView>,
    section: Seq<char>,
) -> bool {
    exists|i: int|
        0 <= i < units.len() && has_section(files, facts, judged, #[trigger] units[i], section)
}

pub open spec fn has_section(
    files: Map<Seq<char>, Seq<char>>,
    facts: Seq<char>,
    judged: Seq<Seq<char>>,
    unit: RunUnitView,
    section: Seq<char>,
) -> bool {
    judged_defs(files, facts, judged, unit) matches Some(defs) && defs.section == section
}

/// Whether the item at `position` is used: a use of any key that a unit gave
/// it was recorded, or a use of its position. A run over several targets
/// records one item once per target, and not always under one key.
pub open spec fn item_used(
    found: Seq<FindingView>,
    refs: Set<Seq<char>>,
    position: Seq<char>,
) -> bool {
    exists|k: int|
        0 <= k < found.len() && (#[trigger] found[k]).def.position() == position && (refs.contains(
            found[k].def.key,
        ) || refs.contains(position))
}

pub open spec fn is_unused(found: Seq<FindingView>, refs: Set<Seq<char>>) -> spec_fn(
    FindingView,
) -> bool {
    |f: FindingView| !item_used(found, refs, f.def.position())
}

/// Whether `key` is the key of one of the items.
pub open spec fn has_key(items: Seq<FindingView>, key: Seq<char>) -> bool {
    exists|k: int| 0 <= k < items.len() && (#[trigger] items[k]).def.key == key
}

pub open spec fn stands_alone(items: Seq<FindingView>) -> spec_fn(FindingView) -> bool {
    |f: FindingView| !has_key(items, f.def.parent)
}

/// Of items that stand side by side at one position, the first.
pub open spec fn first_of_each(items: Seq<FindingView>) -> Seq<FindingView>
    decreases items.len(),
{
    if items.len() == 0 {
        items
    } else {
        let before = first_of_each(items.drop_last());
        if before.len() > 0 && before.last().def.position() == items.last().def.position() {
            before
        } else {
            before.push(items.last())
        }
    }
}

/// The findings among `found`: the items that are not used, but for those of
/// a type or trait that is itself unused, by file, place and key, one for
/// each position.
pub open spec fn findings_among(
    found: Seq<FindingView>,
    refs: Set<Seq<char>>,
) -> Seq<FindingView> {
    let unused = unused_items(found, refs);
    first_of_each(sorted::<Finding>(unused.filter(stands_alone(unused))))
}

impl Ordered for Finding {
    /// By file, then by place, then by key.
    open spec fn before(a: FindingView, b: FindingView) -> bool {
        text_before(a.def.file, b.def.file) || (a.def.file == b.def.file && (a.def.lo < b.def.lo
            || (a.def.lo == b.def.lo && text_before(a.def.key, b.def.key))))
    }

    proof fn not_before_transitive(a: FindingView, b: FindingView, c: FindingView) {
        String::not_before_transitive(a.def.file, b.def.file, c.def.file);
        text_before_total(a.def.file, b.def.file);
        text_before_total(b.def.file, c.def.file);
        if a.def.file == b.def.file && b.def.file == c.def.file && a.def.lo == b.def.lo && b.def.lo
            == c.def.lo {
            String::not_before_transitive(a.def.key, b.def.key, c.def.key);
        }
    }

    proof fn before_asymmetric(a: FindingView, b: FindingView) {
        text_before_irreflexive(a.def.file);
        if text_before(a.def.file, b.def.file) {
            String::before_asymmetric(a.def.file, b.def.file);
        } else if a.def.lo == b.def.lo {
            String::before_asymmetric(a.def.key, b.def.key);
        }
    }

    fn is_before(&self, other: &Self) -> (r: bool) {
        proof {
            text_before_irreflexive(self.def.file@);
        }
        if is_text_before(self.def.file.as_str(), other.def.file.as_str()) {
            true
        } else if !same(self.def.file.as_str(), other.def.file.as_str()) {
            false
        } else {
            self.def.lo < other.def.lo || (self.def.lo == other.def.lo && is_text_before(
                self.def.key.as_str(),
                other.def.key.as_str(),
            ))
        }
    }
}

/// Reads the keys that a unit recorded as used.
fn recorded_refs(files: &Files, facts: &str, unit: &Unit) -> (keys: Option<Vec<String>>)
    requires
        files.wf(),
    ensures
        match keys {
            Some(keys) => refs_of(files@, facts@, unit@) == Some(views(keys@)),
            None => refs_of(files@, facts@, unit@) is None,
        },
{
    let path = unit.refs(facts);
    match files.read(path.as_str()) {
        Some(text) => Some(read_refs(text.as_str())),
        None => if unit.test {
            let path = unit.plain().refs(facts);
            match files.read(path.as_str()) {
                Some(text) => Some(read_refs(text.as_str())),
                None => None,
            }
        } else {
            None
        },
    }
}

/// Reads what a unit recorded of the items it defines, if its items are
/// judged.
fn recorded_defs(files: &Files, facts: &str, judged: &TextSet, run_unit: &RunUnit) -> (defs: Option<
    Defs,
>)
    requires
        files.wf(),
        judged.wf(),
    ensures
        match defs {
            Some(defs) => judged_defs(files@, facts@, judged.listed(), run_unit@) == Some(defs@),
            None => judged_defs(files@, facts@, judged.listed(), run_unit@) is None,
        },
{
    if !judged.has(run_unit.package_id.as_str()) {
        return None;
    }
    let path = run_unit.unit.defs(facts);
    match files.read(path.as_str()) {
        Some(text) => read_defs(text.as_str()),
        None => None,
    }
}

/// Adds the items of one unit.
fn add_findings(found: &mut Vec<Finding>, defs: Defs, unit: usize)
    ensures
        viewed(final(found)@) == viewed(old(found)@) + as_findings(defs@, unit as int),
{
    let ghost before = viewed(found@);
    let ghost whole = defs@;
    let section = defs.section;
    let items = defs.defs;
    assert(as_findings(whole, unit as int).take(0) =~= Seq::<FindingView>::empty());
    assert(before + Seq::<FindingView>::empty() =~= before);
    for def in it: items
        invariant
            it.seq() == items@,
            whole.section == section@,
            whole.defs == def_views(items@),
            viewed(found@) == before + as_findings(whole, unit as int).take(it.index() as int),
    {
        let ghost items_before = viewed(found@);
        let finding = Finding { def, section: section.clone(), unit };
        assert(finding@ == as_findings(whole, unit as int)[it.index() as int]);
        found.push(finding);
        assert(viewed(found@) =~= items_before.push(finding@));
        assert(as_findings(whole, unit as int).take(it.index() + 1) =~= as_findings(
            whole,
            unit as int,
        ).take(it.index() as int).push(finding@));
    }
    assert(as_findings(whole, unit as int).take(items@.len() as int) =~= as_findings(
        whole,
        unit as int,
    ));
}

/// The positions of the items that are used.
fn used_positions(found: &Vec<Finding>, refs: &TextSet) -> (used: TextSet)
    requires
        refs.wf(),
    ensures
        used.wf(),
        forall|p: Seq<char>| #[trigger]
            used.contains(p) <==> item_used(
                viewed(found@),
                Set::new(|k: Seq<char>| refs.contains(k)),
                p,
            ),
{
    let ghost all = viewed(found@);
    let ghost known = Set::new(|k: Seq<char>| refs.contains(k));
    let mut used = TextSet::new();
    let mut i: usize = 0;
    while i < found.len()
        invariant
            refs.wf(),
            i <= found@.len(),
            all == viewed(found@),
            known == Set::new(|k: Seq<char>| refs.contains(k)),
            used.wf(),
            forall|p: Seq<char>| #[trigger]
                used.contains(p) <==> item_used(all.take(i as int), known, p),
        decreases found@.len() - i,
    {
        let ghost before = used;
        let position = found[i].def.position_key();
        assert(all[i as int] == found@[i as int]@);
        let hit = refs.has(found[i].def.key.as_str()) || refs.has(position.as_str());
        if hit {
            used.insert(position.as_str());
        }
        proof {
            let now = all.take(i + 1);
            let was = all.take(i as int);
            assert forall|p: Seq<char>| #[trigger] used.contains(p) <==> item_used(
                now,
                known,
                p,
            ) by {
                assert(before.contains(p) <==> item_used(was, known, p));
                if item_used(was, known, p) {
                    let k = choose|k: int|
                        0 <= k < was.len() && (#[trigger] was[k]).def.position() == p && (
                        known.contains(was[k].def.key) || known.contains(p));
                    assert(now[k] == was[k]);
                }
                if hit && p == position@ {
                    assert(now[i as int].def.position() == p);
                }
                if item_used(now, known, p) {
                    let k = choose|k: int|
                        0 <= k < now.len() && (#[trigger] now[k]).def.position() == p && (
                        known.contains(now[k].def.key) || known.contains(p));
                    if k < i {
                        assert(was[k] == now[k]);
                    }
                }
            }
        }
        i = i + 1;
    }
    assert(all.take(i as int) =~= all);
    used
}

/// The items whose position is not among `used`.
fn without_positions(
    found: Vec<Finding>,
    used: &TextSet,
    Ghost(keep): Ghost<spec_fn(FindingView) -> bool>,
) -> (out: Vec<Finding>)
    requires
        used.wf(),
        forall|f: FindingView| #[trigger] keep(f) == !used.contains(f.def.position()),
    ensures
        viewed(out@) == viewed(found@).filter(keep),
{
    let ghost all = viewed(found@);
    let mut out: Vec<Finding> = Vec::new();
    reveal(Seq::filter);
    assert(viewed(out@) =~= all.take(0).filter(keep));
    for f in it: found
        invariant
            it.seq() == found@,
            all == viewed(found@),
            used.wf(),
            forall|f: FindingView| #[trigger] keep(f) == !used.contains(f.def.position()),
            viewed(out@) == all.take(it.index() as int).filter(keep),
    {
        let ghost before = viewed(out@);
        assert(f@ == all[it.index() as int]);
        assert(all.take(it.index() + 1).drop_last() =~= all.take(it.index() as int));
        reveal(Seq::filter);
        assert(keep(f@) == !used.contains(f@.def.position()));
        let position = f.def.position_key();
        if !used.has(position.as_str()) {
            out.push(f);
            assert(viewed(out@) =~= before.push(f@));
        }
    }
    assert(all.take(found@.len() as int) =~= all);
    out
}

/// The keys of the items.
fn keys_of(items: &Vec<Finding>) -> (keys: TextSet)
    ensures
        keys.wf(),
        forall|k: Seq<char>| #[trigger] keys.contains(k) <==> has_key(viewed(items@), k),
{
    let ghost all = viewed(items@);
    let mut keys = TextSet::new();
    let mut i: usize = 0;
    while i < items.len()
        invariant
            i <= items@.len(),
            all == viewed(items@),
            keys.wf(),
            forall|k: Seq<char>| #[trigger]
                keys.contains(k) <==> has_key(all.take(i as int), k),
        decreases items@.len() - i,
    {
        let ghost before = keys;
        keys.insert(items[i].def.key.as_str());
        proof {
            let now = all.take(i + 1);
            let was = all.take(i as int);
            assert(now[i as int] == items@[i as int]@);
            assert forall|k: Seq<char>| #[trigger] keys.contains(k) <==> has_key(now, k) by {
                assert(before.contains(k) <==> has_key(was, k));
                if has_key(was, k) {
                    let j = choose|j: int| 0 <= j < was.len() && (#[trigger] was[j]).def.key == k;
                    assert(now[j] == was[j]);
                }
                if has_key(now, k) {
                    let j = choose|j: int| 0 <= j < now.len() && (#[trigger] now[j]).def.key == k;
                    if j < i {
                        assert(was[j] == now[j]);
                    }
                }
            }
        }
        i = i + 1;
    }
    assert(all.take(i as int) =~= all);
    keys
}

/// The items that are not of a type or trait among them.
fn standing_alone(items: Vec<Finding>) -> (out: Vec<Finding>)
    ensures
        viewed(out@) == viewed(items@).filter(stands_alone(viewed(items@))),
{
    let ghost all = viewed(items@);
    let ghost keep = stands_alone(all);
    let keys = keys_of(&items);
    let mut out: Vec<Finding> = Vec::new();
    reveal(Seq::filter);
    assert(viewed(out@) =~= all.take(0).filter(keep));
    for f in it: items
        invariant
            it.seq() == items@,
            all == viewed(items@),
            keep == stands_alone(all),
            keys.wf(),
            forall|k: Seq<char>| #[trigger] keys.contains(k) <==> has_key(all, k),
            viewed(out@) == all.take(it.index() as int).filter(keep),
    {
        let ghost before = viewed(out@);
        assert(f@ == all[it.index() as int]);
        assert(all.take(it.index() + 1).drop_last() =~= all.take(it.index() as int));
        reveal(Seq::filter);
        assert(keep(f@) == !keys.contains(f@.def.parent));
        if !keys.has(f.def.parent.as_str()) {
            out.push(f);
            assert(viewed(out@) =~= before.push(f@));
        }
    }
    assert(all.take(items@.len() as int) =~= all);
    out
}

/// Of items that stand side by side at one position, the first.
fn one_of_each(items: Vec<Finding>) -> (out: Vec<Finding>)
    ensures
        viewed(out@) == first_of_each(viewed(items@)),
{
    let ghost all = viewed(items@);
    let mut out: Vec<Finding> = Vec::new();
    assert(viewed(out@) =~= first_of_each(all.take(0)));
    for f in it: items
        invariant
            it.seq() == items@,
            all == viewed(items@),
            viewed(out@) == first_of_each(all.take(it.index() as int)),
    {
        let ghost before = viewed(out@);
        assert(f@ == all[it.index() as int]);
        assert(all.take(it.index() + 1).drop_last() =~= all.take(it.index() as int));
        let n = out.len();
        let repeated = n > 0 && same(
            out[n - 1].def.position_key().as_str(),
            f.def.position_key().as_str(),
        );
        assert(n > 0 ==> before.last() == out@[n - 1]@);
        if !repeated {
            out.push(f);
            assert(viewed(out@) =~= before.push(f@));
        }
    }
    assert(all.take(items@.len() as int) =~= all);
    out
}

/// Judges the run. `files` holds the records that the units left under
/// `facts`, and `judged` names the members whose items the run can judge:
/// every unit's uses count, whatever member it is of.
pub fn judge(
    facts: &str,
    units: &Vec<RunUnit>,
    files: &Files,
    judged: &TextSet,
) -> (records: Records)
    requires
        files.wf(),
        judged.wf(),
    ensures
        ({
            let run = viewed(units@);
            let missing = without_record(files@, facts@, run);
            match records {
                Records::Missing(srcs) => missing.len() > 0 && views(srcs@) == missing,
                Records::Judged { unused, sections } => {
                    &&& missing.len() == 0
                    &&& viewed(unused@) == findings_among(
                        found_items(files@, facts@, judged.listed(), run),
                        used_keys(files@, facts@, run),
                    )
                    &&& sections.wf()
                    &&& forall|s: Seq<char>| #[trigger]
                        sections.contains(s) <==> judged_section(
                            files@,
                            facts@,
                            judged.listed(),
                            run,
                            s,
                        )
                },
            }
        }),
        records.wf(),
        records matches Records::Judged { unused, .. } ==> forall|i: int|
            0 <= i < unused@.len() ==> (#[trigger] unused@[i]).unit < units@.len(),
{
    let ghost run = viewed(units@);
    let mut refs = TextSet::new();
    let mut found: Vec<Finding> = Vec::new();
    let mut sections = TextSet::new();
    let mut missing: Vec<String> = Vec::new();
    let mut i: usize = 0;
    assert(viewed(found@) =~= found_items(files@, facts@, judged.listed(), run.take(0)));
    assert(views(missing@) =~= without_record(files@, facts@, run.take(0)));
    while i < units.len()
        invariant
            run == viewed(units@),
            i <= units@.len(),
            files.wf(),
            judged.wf(),
            refs.wf(),
            sections.wf(),
            views(missing@) == without_record(files@, facts@, run.take(i as int)),
            viewed(found@) == found_items(files@, facts@, judged.listed(), run.take(i as int)),
            forall|k: Seq<char>| #[trigger]
                refs.contains(k) <==> uses(files@, facts@, run.take(i as int), k),
            forall|s: Seq<char>| #[trigger]
                sections.contains(s) <==> judged_section(
                    files@,
                    facts@,
                    judged.listed(),
                    run.take(i as int),
                    s,
                ),
        decreases units@.len() - i,
    {
        let ghost was = run.take(i as int);
        let ghost now = run.take(i + 1);
        let ghost unit = run[i as int];
        assert(now.drop_last() =~= was);
        assert(now.last() == unit && unit == units@[i as int]@);
        let ghost refs_before = refs;
        let ghost sections_before = sections;
        let ghost missing_before = missing@;
        match recorded_refs(files, facts, &units[i].unit) {
            Some(keys) => {
                add_all(&mut refs, &keys);
            },
            None => {
                let src = units[i].unit.src.clone();
                missing.push(src);
                assert(views(missing@) =~= views(missing_before).push(unit.unit.src));
            },
        }
        let defs = recorded_defs(files, facts, judged, &units[i]);
        if let Some(defs) = defs {
            sections.insert(defs.section.as_str());
            add_findings(&mut found, defs, i);
        }
        proof {
            assert forall|k: Seq<char>| #[trigger] refs.contains(k) <==> uses(
                files@,
                facts@,
                now,
                k,
            ) by {
                assert(refs_before.contains(k) <==> uses(files@, facts@, was, k));
                if uses(files@, facts@, was, k) {
                    let j = choose|j: int|
                        0 <= j < was.len() && unit_uses(files@, facts@, #[trigger] was[j], k);
                    assert(now[j] == was[j]);
                }
                if unit_uses(files@, facts@, unit, k) {
                    assert(unit_uses(files@, facts@, now[i as int], k));
                }
                if uses(files@, facts@, now, k) {
                    let j = choose|j: int|
                        0 <= j < now.len() && unit_uses(files@, facts@, #[trigger] now[j], k);
                    if j < i {
                        assert(was[j] == now[j]);
                    }
                }
            }
            assert forall|s: Seq<char>| #[trigger] sections.contains(s) <==> judged_section(
                files@,
                facts@,
                judged.listed(),
                now,
                s,
            ) by {
                assert(sections_before.contains(s) <==> judged_section(
                    files@,
                    facts@,
                    judged.listed(),
                    was,
                    s,
                ));
                if judged_section(files@, facts@, judged.listed(), was, s) {
                    let j = choose|j: int|
                        0 <= j < was.len() && has_section(
                            files@,
                            facts@,
                            judged.listed(),
                            #[trigger] was[j],
                            s,
                        );
                    assert(now[j] == was[j]);
                }
                if has_section(files@, facts@, judged.listed(), unit, s) {
                    assert(has_section(files@, facts@, judged.listed(), now[i as int], s));
                }
                if judged_section(files@, facts@, judged.listed(), now, s) {
                    let j = choose|j: int|
                        0 <= j < now.len() && has_section(
                            files@,
                            facts@,
                            judged.listed(),
                            #[trigger] now[j],
                            s,
                        );
                    if j < i {
                        assert(was[j] == now[j]);
                    }
                }
            }
        }
        i = i + 1;
    }
    assert(run.take(i as int) =~= run);
    if missing.len() > 0 {
        return Records::Missing(missing);
    }
    let ghost all = viewed(found@);
    let ghost known = used_keys(files@, facts@, run);
    assert(Set::new(|k: Seq<char>| refs.contains(k)) =~= known);
    let used = used_positions(&found, &refs);
    let ghost keep = is_unused(all, known);
    assert forall|f: FindingView| #[trigger] keep(f) == !used.contains(f.def.position()) by {}
    let unused = without_positions(found, &used, Ghost(keep));
    let alone = standing_alone(unused);
    let in_order = sort(alone);
    let findings = one_of_each(in_order);
    proof {
        let found = viewed(findings@);
        assert forall|k: int| 0 <= k < found.len() implies sections.listed().contains(
            (#[trigger] found[k]).section,
        ) && found[k].unit < run.len() by {
            findings_are_in_judged_sections(files@, facts@, judged.listed(), run, k);
            assert(sections.contains(found[k].section));
        }
        assert forall|k: int| 0 <= k < findings@.len() implies (#[trigger] findings@[k]).unit
            < units@.len() by {
            assert(found[k] == findings@[k]@);
        }
    }
    Records::Judged { unused: findings, sections }
}

/// Adds every one of `keys`.
fn add_all(set: &mut TextSet, keys: &Vec<String>)
    requires
        old(set).wf(),
    ensures
        final(set).wf(),
        forall|k: Seq<char>| #[trigger]
            final(set).contains(k) <==> old(set).contains(k) || views(keys@).contains(k),
{
    let ghost all = views(keys@);
    let mut i: usize = 0;
    while i < keys.len()
        invariant
            i <= keys@.len(),
            all == views(keys@),
            set.wf(),
            forall|k: Seq<char>| #[trigger]
                set.contains(k) <==> old(set).contains(k) || all.take(i as int).contains(k),
        decreases keys@.len() - i,
    {
        set.insert(keys[i].as_str());
        proof {
            let now = all.take(i + 1);
            let was = all.take(i as int);
            assert(now =~= was.push(all[i as int]));
            assert(all[i as int] == keys@[i as int]@);
            assert forall|k: Seq<char>| #[trigger]
                now.contains(k) <==> was.contains(k) || k == all[i as int] by {
                if was.contains(k) {
                    let j = choose|j: int| 0 <= j < was.len() && was[j] == k;
                    assert(now[j] == k);
                }
                assert(now[i as int] == all[i as int]);
            }
        }
        i = i + 1;
    }
    assert(all.take(i as int) =~= all);
}

/// The first of each stands in the sequence, and is the first of what stands
/// at its position there.
proof fn lemma_first_of_each(items: Seq<FindingView>)
    ensures
        forall|i: int|
            0 <= i < first_of_each(items).len() ==> items.contains(
                #[trigger] first_of_each(items)[i],
            ),
        forall|k: int|
            0 <= k < items.len() ==> has_position(
                first_of_each(items),
                (#[trigger] items[k]).def.position(),
            ),
    decreases items.len(),
{
    if items.len() > 0 {
        let front = items.drop_last();
        let before = first_of_each(front);
        let out = first_of_each(items);
        lemma_first_of_each(front);
        assert forall|i: int| 0 <= i < out.len() implies items.contains(#[trigger] out[i]) by {
            if i < before.len() {
                assert(front.contains(before[i]));
                let j = choose|j: int| 0 <= j < front.len() && front[j] == before[i];
                assert(items[j] == out[i]);
            } else {
                assert(items[items.len() - 1] == out[i]);
            }
        }
        assert forall|k: int| 0 <= k < items.len() implies has_position(
            out,
            (#[trigger] items[k]).def.position(),
        ) by {
            let position = items[k].def.position();
            if k < front.len() {
                assert(front[k] == items[k]);
                assert(has_position(before, position));
                let j = choose|j: int|
                    0 <= j < before.len() && (#[trigger] before[j]).def.position() == position;
                assert(out[j].def.position() == position);
            } else {
                assert(out[out.len() - 1].def.position() == position);
            }
        }
    }
}

/// Whether one of the items stands at `position`.
pub open spec fn has_position(items: Seq<FindingView>, position: Seq<char>) -> bool {
    exists|k: int| 0 <= k < items.len() && (#[trigger] items[k]).def.position() == position
}

/// The items that no use was recorded of.
pub open spec fn unused_items(
    found: Seq<FindingView>,
    refs: Set<Seq<char>>,
) -> Seq<FindingView> {
    found.filter(is_unused(found, refs))
}

/// What stands in a filtered sequence stood in it before and passes.
pub(crate) proof fn lemma_filtered<A>(s: Seq<A>, keep: spec_fn(A) -> bool, x: A)
    ensures
        s.filter(keep).contains(x) <==> s.contains(x) && keep(x),
{
    if s.filter(keep).contains(x) {
        s.lemma_filter_contains_rev(keep, x);
        let i = choose|i: int| 0 <= i < s.filter(keep).len() && s.filter(keep)[i] == x;
        s.lemma_filter_pred(keep, i);
    }
    if s.contains(x) && keep(x) {
        let i = choose|i: int| 0 <= i < s.len() && s[i] == x;
        s.lemma_filter_contains(keep, i);
    }
}

/// What is reported is an item of the run that is not used under any of its
/// keys, and that is not of a type or trait that is itself unused.
pub proof fn findings_are_unused(found: Seq<FindingView>, refs: Set<Seq<char>>, i: int)
    requires
        0 <= i < findings_among(found, refs).len(),
    ensures
        ({
            let finding = findings_among(found, refs)[i];
            &&& found.contains(finding)
            &&& !refs.contains(finding.def.key)
            &&& !refs.contains(finding.def.position())
            &&& !item_used(found, refs, finding.def.position())
            &&& !has_key(unused_items(found, refs), finding.def.parent)
        }),
{
    let unused = unused_items(found, refs);
    let alone = unused.filter(stands_alone(unused));
    let ordered = sorted::<Finding>(alone);
    let finding = findings_among(found, refs)[i];
    lemma_first_of_each(ordered);
    sorted_holds_the_same::<Finding>(alone, finding);
    lemma_filtered(unused, stands_alone(unused), finding);
    lemma_filtered(found, is_unused(found, refs), finding);
    let k = choose|k: int| 0 <= k < found.len() && found[k] == finding;
    assert(found[k].def.position() == finding.def.position());
}

/// An item of the run that is not used, and that is not of a type or trait
/// that is itself unused, is reported, under one of the keys it has.
pub proof fn unused_items_are_found(
    found: Seq<FindingView>,
    refs: Set<Seq<char>>,
    item: FindingView,
)
    requires
        found.contains(item),
        !item_used(found, refs, item.def.position()),
        !has_key(unused_items(found, refs), item.def.parent),
    ensures
        has_position(findings_among(found, refs), item.def.position()),
{
    let unused = unused_items(found, refs);
    let alone = unused.filter(stands_alone(unused));
    let ordered = sorted::<Finding>(alone);
    lemma_filtered(found, is_unused(found, refs), item);
    lemma_filtered(unused, stands_alone(unused), item);
    sorted_holds_the_same::<Finding>(alone, item);
    assert(ordered.contains(item));
    let k = choose|k: int| 0 <= k < ordered.len() && ordered[k] == item;
    lemma_first_of_each(ordered);
    assert(has_position(first_of_each(ordered), ordered[k].def.position()));
}

/// What is reported belongs to a section that the run judged.
pub proof fn findings_are_in_judged_sections(
    files: Map<Seq<char>, Seq<char>>,
    facts: Seq<char>,
    judged: Seq<Seq<char>>,
    units: Seq<RunUnitView>,
    i: int,
)
    requires
        0 <= i < findings_among(
            found_items(files, facts, judged, units),
            used_keys(files, facts, units),
        ).len(),
    ensures
        ({
            let finding = findings_among(
                found_items(files, facts, judged, units),
                used_keys(files, facts, units),
            )[i];
            &&& judged_section(files, facts, judged, units, finding.section)
            &&& 0 <= finding.unit < units.len()
        }),
{
    let found = found_items(files, facts, judged, units);
    findings_are_unused(found, used_keys(files, facts, units), i);
    let finding = findings_among(found, used_keys(files, facts, units))[i];
    let k = choose|k: int| 0 <= k < found.len() && found[k] == finding;
    lemma_found_in_judged_section(files, facts, judged, units, k);
}

proof fn lemma_found_in_judged_section(
    files: Map<Seq<char>, Seq<char>>,
    facts: Seq<char>,
    judged: Seq<Seq<char>>,
    units: Seq<RunUnitView>,
    k: int,
)
    requires
        0 <= k < found_items(files, facts, judged, units).len(),
    ensures
        judged_section(
            files,
            facts,
            judged,
            units,
            found_items(files, facts, judged, units)[k].section,
        ),
        0 <= found_items(files, facts, judged, units)[k].unit < units.len(),
    decreases units.len(),
{
    let front = units.drop_last();
    let before = found_items(files, facts, judged, front);
    let section = found_items(files, facts, judged, units)[k].section;
    if k < before.len() {
        lemma_found_in_judged_section(files, facts, judged, front, k);
        let j = choose|j: int|
            0 <= j < front.len() && has_section(files, facts, judged, #[trigger] front[j], section);
        assert(has_section(files, facts, judged, units[j], section));
    } else {
        assert(has_section(files, facts, judged, units[units.len() - 1], section));
    }
}

/// Items in order, the ones at one position stand side by side.
proof fn lemma_side_by_side(items: Seq<FindingView>, i: int, j: int, k: int)
    requires
        in_order::<Finding>(items),
        0 <= i < j < k < items.len(),
        well_keyed(items[i].def.key),
        well_keyed(items[k].def.key),
        items[i].def.position() == items[k].def.position(),
    ensures
        items[j].def.position() == items[i].def.position(),
{
    let a = items[i].def;
    let b = items[j].def;
    let c = items[k].def;
    position_tells_places_apart(
        crate_of(a.key),
        a.file,
        a.lo as nat,
        crate_of(c.key),
        c.file,
        c.lo as nat,
    );
    assert(!Finding::before(items[j], items[i]));
    assert(!Finding::before(items[k], items[j]));
    text_before_total(a.file, b.file);
    if text_before(a.file, b.file) {
        String::before_asymmetric(a.file, b.file);
    }
    assert(b.file == a.file);
    assert(b.lo == a.lo);
    lemma_crate_prefix(a.key, b.key);
    lemma_crate_prefix(c.key, b.key);
    lemma_prefix_between(crate_of(a.key) + seq![':', ':'], a.key, b.key, c.key);
}

proof fn lemma_one_per_position(items: Seq<FindingView>)
    requires
        in_order::<Finding>(items),
        forall|i: int| 0 <= i < items.len() ==> well_keyed((#[trigger] items[i]).def.key),
    ensures
        first_of_each(items).len() > 0 <==> items.len() > 0,
        items.len() > 0 ==> first_of_each(items).last().def.position()
            == items.last().def.position(),
        one_per_position(first_of_each(items)),
    decreases items.len(),
{
    if items.len() > 0 {
        let front = items.drop_last();
        let before = first_of_each(front);
        let out = first_of_each(items);
        assert forall|i: int| 0 <= i < front.len() implies well_keyed(
            (#[trigger] front[i]).def.key,
        ) by {
            assert(front[i] == items[i]);
        }
        lemma_front_in_order(items);
        lemma_one_per_position(front);
        if out.len() > before.len() {
            let last = items.len() - 1;
            assert forall|i: int, j: int| 0 <= i < j < out.len() implies (
            #[trigger] out[i]).def.position() != (#[trigger] out[j]).def.position() by {
                if j == out.len() - 1 && out[i].def.position() == out[j].def.position() {
                    lemma_first_of_each(front);
                    assert(front.contains(before[i]));
                    let a = choose|a: int| 0 <= a < front.len() && front[a] == before[i];
                    assert(items[a] == front[a]);
                    if a < last - 1 {
                        lemma_side_by_side(items, a, last - 1, last);
                    }
                    assert(front.last() == items[last - 1]);
                }
            }
        }
    }
}

/// No two of the items stand at one position.
pub open spec fn one_per_position(items: Seq<FindingView>) -> bool {
    forall|i: int, j: int|
        0 <= i < j < items.len() ==> (#[trigger] items[i]).def.position() != (
        #[trigger] items[j]).def.position()
}

/// An item is one finding, whatever keys it has in how many units.
pub proof fn an_item_is_one_finding(found: Seq<FindingView>, refs: Set<Seq<char>>)
    requires
        forall|i: int| 0 <= i < found.len() ==> well_keyed((#[trigger] found[i]).def.key),
    ensures
        one_per_position(findings_among(found, refs)),
{
    let unused = unused_items(found, refs);
    lemma_ordered_well_keyed(found, refs);
    lemma_one_per_position(sorted::<Finding>(unused.filter(stands_alone(unused))));
}

/// Of items in order, the first of a position is the one with the least key
/// there.
proof fn lemma_first_is_least(items: Seq<FindingView>)
    requires
        in_order::<Finding>(items),
        forall|i: int| 0 <= i < items.len() ==> well_keyed((#[trigger] items[i]).def.key),
    ensures
        forall|i: int, k: int|
            0 <= i < first_of_each(items).len() && 0 <= k < items.len() && (
            #[trigger] first_of_each(items)[i]).def.position() == (
            #[trigger] items[k]).def.position() ==> !Finding::before(
                items[k],
                first_of_each(items)[i],
            ),
    decreases items.len(),
{
    if items.len() > 0 {
        let front = items.drop_last();
        let before = first_of_each(front);
        let out = first_of_each(items);
        let last = items.len() - 1;
        assert forall|i: int| 0 <= i < front.len() implies well_keyed(
            (#[trigger] front[i]).def.key,
        ) by {
            assert(front[i] == items[i]);
        }
        lemma_front_in_order(items);
        lemma_first_is_least(front);
        lemma_first_of_each(front);
        lemma_one_per_position(front);
        lemma_one_per_position(items);
        assert forall|i: int| 0 <= i < before.len() implies !Finding::before(
            items[last],
            #[trigger] before[i],
        ) by {
            assert(front.contains(before[i]));
            let a = choose|a: int| 0 <= a < front.len() && front[a] == before[i];
            assert(items[a] == before[i]);
        }
        assert forall|i: int, k: int|
            0 <= i < out.len() && 0 <= k < items.len() && (#[trigger] out[i]).def.position() == (
            #[trigger] items[k]).def.position() implies !Finding::before(items[k], out[i]) by {
            if i < before.len() {
                assert(out[i] == before[i]);
                if k < last {
                    assert(front[k] == items[k]);
                }
            } else {
                assert(out[i] == items[last]);
                if k < last {
                    assert(front[k] == items[k]);
                    assert(has_position(before, front[k].def.position()));
                    let m = choose|m: int|
                        0 <= m < before.len() && (#[trigger] before[m]).def.position()
                            == front[k].def.position();
                    assert(out[m] == before[m]);
                } else {
                    text_before_irreflexive(items[last].def.file);
                    text_before_irreflexive(items[last].def.key);
                }
            }
        }
    }
}

/// Whether two findings are of the same key at the same place.
pub open spec fn same_place(a: FindingView, b: FindingView) -> bool {
    a.def.file == b.def.file && a.def.lo == b.def.lo && a.def.key == b.def.key
}

/// Whether some item of `items` has the key and place of `item`.
spec fn has_place(items: Seq<FindingView>, item: FindingView) -> bool {
    exists|k: int| 0 <= k < items.len() && same_place(#[trigger] items[k], item)
}

/// Items at one place with one key come neither before the other, and any two
/// others come one before the other.
proof fn lemma_told_apart(a: FindingView, b: FindingView)
    ensures
        same_place(a, b) <==> !Finding::before(a, b) && !Finding::before(b, a),
{
    text_before_total(a.def.file, b.def.file);
    text_before_total(a.def.key, b.def.key);
    text_before_irreflexive(a.def.file);
    text_before_irreflexive(a.def.key);
}

proof fn lemma_front_in_order(items: Seq<FindingView>)
    requires
        in_order::<Finding>(items),
        items.len() > 0,
    ensures
        in_order::<Finding>(items.drop_last()),
{
    let front = items.drop_last();
    assert forall|i: int, j: int| 0 <= i < j < front.len() implies !Finding::before(
        #[trigger] front[j],
        #[trigger] front[i],
    ) by {
        assert(front[i] == items[i] && front[j] == items[j]);
    }
}

/// The last of the firsts stands at the last position.
proof fn lemma_last_position(items: Seq<FindingView>)
    ensures
        first_of_each(items).len() > 0 <==> items.len() > 0,
        items.len() > 0 ==> first_of_each(items).last().def.position()
            == items.last().def.position(),
    decreases items.len(),
{
    if items.len() > 0 {
        lemma_last_position(items.drop_last());
    }
}

/// Whether each of the items comes before those behind it.
pub open spec fn strictly_in_order(items: Seq<FindingView>) -> bool {
    forall|i: int, j: int|
        0 <= i < j < items.len() ==> Finding::before(#[trigger] items[i], #[trigger] items[j])
}

proof fn lemma_firsts_strictly_in_order(items: Seq<FindingView>)
    requires
        in_order::<Finding>(items),
    ensures
        strictly_in_order(first_of_each(items)),
    decreases items.len(),
{
    if items.len() > 0 {
        let front = items.drop_last();
        let before = first_of_each(front);
        let out = first_of_each(items);
        let last = items.last();
        lemma_front_in_order(items);
        lemma_firsts_strictly_in_order(front);
        lemma_first_of_each(front);
        assert forall|i: int, j: int| 0 <= i < j < out.len() implies Finding::before(
            #[trigger] out[i],
            #[trigger] out[j],
        ) by {
            assert(out[i] == before[i]);
            if j < before.len() {
                assert(out[j] == before[j]);
            } else {
                let end = before.last();
                assert(front.contains(before[i]) && front.contains(before[before.len() - 1]));
                let m = choose|m: int| 0 <= m < front.len() && front[m] == before[i];
                let n = choose|n: int| 0 <= n < front.len() && front[n] == end;
                assert(items[m] == before[i] && items[n] == end);
                assert(!Finding::before(items[items.len() - 1], items[m]));
                assert(!Finding::before(items[items.len() - 1], items[n]));
                lemma_told_apart(before[i], last);
                if same_place(before[i], last) {
                    assert(end.def.position() != last.def.position());
                    assert(Finding::before(before[i], end));
                }
            }
        }
    }
}

/// What is found is sorted by file, then by place, then by key, and no key is
/// found twice at one place.
pub proof fn findings_are_in_order(found: Seq<FindingView>, refs: Set<Seq<char>>)
    ensures
        strictly_in_order(findings_among(found, refs)),
{
    let unused = unused_items(found, refs);
    let alone = unused.filter(stands_alone(unused));
    sorted_is_in_order::<Finding>(alone);
    lemma_firsts_strictly_in_order(sorted::<Finding>(alone));
}

/// Whether every place of `a`, with its key, is one of `b`.
spec fn places_among(a: Seq<FindingView>, b: Seq<FindingView>) -> bool {
    forall|i: int| 0 <= i < a.len() ==> #[trigger] has_place(b, a[i])
}

/// Whether two sequences are of the same keys at the same places.
pub open spec fn same_places(a: Seq<FindingView>, b: Seq<FindingView>) -> bool {
    &&& a.len() == b.len()
    &&& forall|i: int| 0 <= i < a.len() ==> same_place(#[trigger] a[i], #[trigger] b[i])
}

/// Whether the last two of the items are of one key at one place.
spec fn ends_twice(items: Seq<FindingView>) -> bool {
    items.len() > 1 && same_place(items[items.len() - 2], items[items.len() - 1])
}

/// A place that ends the sequence twice can be left out once.
proof fn lemma_ends_twice(items: Seq<FindingView>, other: Seq<FindingView>)
    requires
        in_order::<Finding>(items),
        ends_twice(items),
        places_among(items, other),
        places_among(other, items),
    ensures
        in_order::<Finding>(items.drop_last()),
        first_of_each(items.drop_last()) == first_of_each(items),
        places_among(items.drop_last(), other),
        places_among(other, items.drop_last()),
{
    let front = items.drop_last();
    lemma_front_in_order(items);
    lemma_last_position(front);
    assert(front.last() == items[items.len() - 2]);
    assert forall|i: int| 0 <= i < front.len() implies #[trigger] has_place(other, front[i]) by {
        assert(has_place(other, items[i]));
    }
    assert forall|i: int| 0 <= i < other.len() implies #[trigger] has_place(front, other[i]) by {
        assert(has_place(items, other[i]));
        let k = choose|k: int| 0 <= k < items.len() && same_place(#[trigger] items[k], other[i]);
        if k < front.len() {
            assert(same_place(front[k], other[i]));
        } else {
            assert(same_place(front[front.len() - 1], other[i]));
        }
    }
}

/// Where the last place is there once, all else comes before it.
proof fn lemma_last_is_greatest(items: Seq<FindingView>, i: int)
    requires
        in_order::<Finding>(items),
        !ends_twice(items),
        0 <= i < items.len() - 1,
    ensures
        Finding::before(items[i], items[items.len() - 1]),
{
    let last = items.len() - 1;
    assert(!Finding::before(items[last], items[i]));
    assert(!Finding::before(items[last], items[last - 1]));
    lemma_told_apart(items[i], items[last]);
    lemma_told_apart(items[last - 1], items[last]);
    if same_place(items[i], items[last]) {
        assert(!Finding::before(items[last - 1], items[i]));
    }
}

/// Without their last places, which are one, two sequences still hold the
/// same places.
proof fn lemma_places_of_fronts(a: Seq<FindingView>, b: Seq<FindingView>)
    requires
        in_order::<Finding>(a),
        a.len() > 0,
        b.len() > 0,
        !ends_twice(a),
        same_place(a[a.len() - 1], b[b.len() - 1]),
        places_among(a, b),
    ensures
        places_among(a.drop_last(), b.drop_last()),
{
    let fa = a.drop_last();
    let fb = b.drop_last();
    assert forall|i: int| 0 <= i < fa.len() implies #[trigger] has_place(fb, fa[i]) by {
        assert(has_place(b, a[i]));
        let k = choose|k: int| 0 <= k < b.len() && same_place(#[trigger] b[k], a[i]);
        lemma_last_is_greatest(a, i);
        lemma_told_apart(a[i], a[a.len() - 1]);
        assert(same_place(fb[k], fa[i]));
    }
}

/// In order, the same places end with the same place.
proof fn lemma_same_last(a: Seq<FindingView>, b: Seq<FindingView>)
    requires
        in_order::<Finding>(a),
        in_order::<Finding>(b),
        a.len() > 0,
        b.len() > 0,
        !ends_twice(a),
        !ends_twice(b),
        places_among(a, b),
        places_among(b, a),
    ensures
        same_place(a[a.len() - 1], b[b.len() - 1]),
{
    let la = a[a.len() - 1];
    let lb = b[b.len() - 1];
    assert(has_place(b, la) && has_place(a, lb));
    let m = choose|m: int| 0 <= m < b.len() && same_place(#[trigger] b[m], la);
    let n = choose|n: int| 0 <= n < a.len() && same_place(#[trigger] a[n], lb);
    if m < b.len() - 1 {
        lemma_last_is_greatest(b, m);
        if n < a.len() - 1 {
            lemma_last_is_greatest(a, n);
            Finding::before_asymmetric(la, lb);
        } else {
            lemma_told_apart(la, lb);
        }
    }
}

/// The same place behind both leaves the firsts the same.
proof fn lemma_same_firsts_and_last(a: Seq<FindingView>, b: Seq<FindingView>)
    requires
        a.len() > 0,
        b.len() > 0,
        same_place(a[a.len() - 1], b[b.len() - 1]),
        same_places(first_of_each(a.drop_last()), first_of_each(b.drop_last())),
    ensures
        same_places(first_of_each(a), first_of_each(b)),
{
    let fa = first_of_each(a.drop_last());
    let fb = first_of_each(b.drop_last());
    if fa.len() > 0 {
        assert(same_place(fa[fa.len() - 1], fb[fb.len() - 1]));
    }
    let out = first_of_each(a);
    let other = first_of_each(b);
    assert forall|i: int| 0 <= i < out.len() implies same_place(
        #[trigger] out[i],
        #[trigger] other[i],
    ) by {
        if i < fa.len() {
            assert(same_place(fa[i], fb[i]));
        }
    }
}

/// In order, the firsts of the same places are the same.
proof fn lemma_same_firsts(a: Seq<FindingView>, b: Seq<FindingView>)
    requires
        in_order::<Finding>(a),
        in_order::<Finding>(b),
        places_among(a, b),
        places_among(b, a),
    ensures
        same_places(first_of_each(a), first_of_each(b)),
    decreases a.len() + b.len(),
{
    if a.len() == 0 {
        if b.len() > 0 {
            assert(has_place(a, b[0]));
        }
    } else if b.len() == 0 {
        assert(has_place(b, a[0]));
    } else if ends_twice(a) {
        lemma_ends_twice(a, b);
        lemma_same_firsts(a.drop_last(), b);
    } else if ends_twice(b) {
        lemma_ends_twice(b, a);
        lemma_same_firsts(a, b.drop_last());
    } else {
        lemma_same_last(a, b);
        lemma_front_in_order(a);
        lemma_front_in_order(b);
        lemma_places_of_fronts(a, b);
        lemma_places_of_fronts(b, a);
        lemma_same_firsts(a.drop_last(), b.drop_last());
        lemma_same_firsts_and_last(a, b);
    }
}

/// Whether the same items stand in both.
pub open spec fn same_items(a: Seq<FindingView>, b: Seq<FindingView>) -> bool {
    &&& forall|i: int| 0 <= i < a.len() ==> has_item(b, (#[trigger] a[i]).def)
    &&& forall|i: int| 0 <= i < b.len() ==> has_item(a, (#[trigger] b[i]).def)
}

pub open spec fn has_item(items: Seq<FindingView>, def: DefView) -> bool {
    exists|k: int| 0 <= k < items.len() && (#[trigger] items[k]).def == def
}

/// An item that stands alone unused among `a` does so among `b`.
proof fn lemma_same_alone(
    a: Seq<FindingView>,
    b: Seq<FindingView>,
    refs: Set<Seq<char>>,
    item: FindingView,
    other: FindingView,
)
    requires
        same_items(a, b),
        item.def == other.def,
        b.contains(other),
        a.contains(item),
        !item_used(a, refs, item.def.position()),
        !has_key(unused_items(a, refs), item.def.parent),
    ensures
        !item_used(b, refs, other.def.position()),
        !has_key(unused_items(b, refs), other.def.parent),
{
    lemma_same_used(a, b, refs, item.def.position());
    let ub = unused_items(b, refs);
    if has_key(ub, other.def.parent) {
        let k = choose|k: int|
            0 <= k < ub.len() && (#[trigger] ub[k]).def.key == other.def.parent;
        assert(ub.contains(ub[k]));
        lemma_filtered(b, is_unused(b, refs), ub[k]);
        let kb = choose|kb: int| 0 <= kb < b.len() && b[kb] == ub[k];
        assert(has_item(a, b[kb].def));
        let ka = choose|ka: int| 0 <= ka < a.len() && (#[trigger] a[ka]).def == b[kb].def;
        lemma_same_used(a, b, refs, a[ka].def.position());
        assert(a.contains(a[ka]));
        lemma_filtered(a, is_unused(a, refs), a[ka]);
        let ua = unused_items(a, refs);
        let m = choose|m: int| 0 <= m < ua.len() && ua[m] == a[ka];
        assert(ua[m].def.key == item.def.parent);
    }
}

proof fn lemma_same_used(
    a: Seq<FindingView>,
    b: Seq<FindingView>,
    refs: Set<Seq<char>>,
    position: Seq<char>,
)
    requires
        same_items(a, b),
    ensures
        item_used(a, refs, position) == item_used(b, refs, position),
{
    if item_used(a, refs, position) {
        let k = choose|k: int|
            0 <= k < a.len() && (#[trigger] a[k]).def.position() == position && (refs.contains(
                a[k].def.key,
            ) || refs.contains(position));
        assert(has_item(b, a[k].def));
        let j = choose|j: int| 0 <= j < b.len() && (#[trigger] b[j]).def == a[k].def;
        assert(b[j].def.position() == position);
    }
    if item_used(b, refs, position) {
        let k = choose|k: int|
            0 <= k < b.len() && (#[trigger] b[k]).def.position() == position && (refs.contains(
                b[k].def.key,
            ) || refs.contains(position));
        assert(has_item(a, b[k].def));
        let j = choose|j: int| 0 <= j < a.len() && (#[trigger] a[j]).def == b[k].def;
        assert(a[j].def.position() == position);
    }
}

/// Of the keys that an unused item has in the units of the run, the finding
/// has the least.
pub proof fn a_finding_has_the_least_key(
    found: Seq<FindingView>,
    refs: Set<Seq<char>>,
    i: int,
    item: FindingView,
)
    requires
        forall|k: int| 0 <= k < found.len() ==> well_keyed((#[trigger] found[k]).def.key),
        0 <= i < findings_among(found, refs).len(),
        found.contains(item),
        !item_used(found, refs, item.def.position()),
        !has_key(unused_items(found, refs), item.def.parent),
        item.def.position() == findings_among(found, refs)[i].def.position(),
    ensures
        ({
            let finding = findings_among(found, refs)[i];
            &&& finding.def.file == item.def.file
            &&& finding.def.lo == item.def.lo
            &&& !text_before(item.def.key, finding.def.key)
        }),
{
    let unused = unused_items(found, refs);
    let alone = unused.filter(stands_alone(unused));
    let ordered = sorted::<Finding>(alone);
    lemma_ordered_well_keyed(found, refs);
    lemma_filtered(found, is_unused(found, refs), item);
    lemma_filtered(unused, stands_alone(unused), item);
    sorted_holds_the_same::<Finding>(alone, item);
    let k = choose|k: int| 0 <= k < ordered.len() && ordered[k] == item;
    lemma_first_is_least(ordered);
    assert(first_of_each(ordered)[i].def.position() == ordered[k].def.position());
    let finding = findings_among(found, refs)[i];
    findings_are_unused(found, refs, i);
    assert(well_keyed(finding.def.key)) by {
        let m = choose|m: int| 0 <= m < found.len() && found[m] == finding;
        assert(well_keyed(found[m].def.key));
    }
    assert(well_keyed(item.def.key)) by {
        let m = choose|m: int| 0 <= m < found.len() && found[m] == item;
        assert(well_keyed(found[m].def.key));
    }
    position_tells_places_apart(
        crate_of(item.def.key),
        item.def.file,
        item.def.lo as nat,
        crate_of(finding.def.key),
        finding.def.file,
        finding.def.lo as nat,
    );
}

proof fn lemma_ordered_well_keyed(found: Seq<FindingView>, refs: Set<Seq<char>>)
    requires
        forall|i: int| 0 <= i < found.len() ==> well_keyed((#[trigger] found[i]).def.key),
    ensures
        ({
            let unused = unused_items(found, refs);
            let ordered = sorted::<Finding>(unused.filter(stands_alone(unused)));
            &&& in_order::<Finding>(ordered)
            &&& forall|i: int| 0 <= i < ordered.len() ==> well_keyed((#[trigger] ordered[i]).def.key)
        }),
{
    let unused = unused_items(found, refs);
    let alone = unused.filter(stands_alone(unused));
    let ordered = sorted::<Finding>(alone);
    sorted_is_in_order::<Finding>(alone);
    assert forall|i: int| 0 <= i < ordered.len() implies well_keyed(
        (#[trigger] ordered[i]).def.key,
    ) by {
        let item = ordered[i];
        assert(ordered.contains(item));
        sorted_holds_the_same::<Finding>(alone, item);
        lemma_filtered(unused, stands_alone(unused), item);
        lemma_filtered(found, is_unused(found, refs), item);
        let k = choose|k: int| 0 <= k < found.len() && found[k] == item;
        assert(well_keyed(found[k].def.key));
    }
}

/// What stands alone unused among `a` has its place among what does so among
/// `b`.
proof fn lemma_alone_in_both(a: Seq<FindingView>, b: Seq<FindingView>, refs: Set<Seq<char>>)
    requires
        same_items(a, b),
    ensures
        ({
            let ua = unused_items(a, refs);
            let ub = unused_items(b, refs);
            places_among(
                sorted::<Finding>(ua.filter(stands_alone(ua))),
                sorted::<Finding>(ub.filter(stands_alone(ub))),
            )
        }),
{
    let ua = unused_items(a, refs);
    let ub = unused_items(b, refs);
    let alone = ua.filter(stands_alone(ua));
    let other = ub.filter(stands_alone(ub));
    let left = sorted::<Finding>(alone);
    let right = sorted::<Finding>(other);
    assert forall|i: int| 0 <= i < left.len() implies #[trigger] has_place(right, left[i]) by {
        let item = left[i];
        assert(left.contains(item));
        sorted_holds_the_same::<Finding>(alone, item);
        lemma_filtered(ua, stands_alone(ua), item);
        lemma_filtered(a, is_unused(a, refs), item);
        let ka = choose|ka: int| 0 <= ka < a.len() && a[ka] == item;
        assert(has_item(b, a[ka].def));
        let kb = choose|kb: int| 0 <= kb < b.len() && (#[trigger] b[kb]).def == item.def;
        assert(b.contains(b[kb]));
        lemma_same_alone(a, b, refs, item, b[kb]);
        lemma_filtered(b, is_unused(b, refs), b[kb]);
        lemma_filtered(ub, stands_alone(ub), b[kb]);
        sorted_holds_the_same::<Finding>(other, b[kb]);
        let k = choose|k: int| 0 <= k < right.len() && right[k] == b[kb];
        assert(same_place(right[k], item));
    }
}

/// What is found, under which key and in what order, does not depend on the
/// order in which the items were recorded, nor on how often.
pub proof fn findings_do_not_depend_on_the_order(
    found: Seq<FindingView>,
    other: Seq<FindingView>,
    refs: Set<Seq<char>>,
)
    requires
        same_items(found, other),
    ensures
        same_places(findings_among(found, refs), findings_among(other, refs)),
{
    let ua = unused_items(found, refs);
    let ub = unused_items(other, refs);
    lemma_alone_in_both(found, other, refs);
    lemma_alone_in_both(other, found, refs);
    sorted_is_in_order::<Finding>(ua.filter(stands_alone(ua)));
    sorted_is_in_order::<Finding>(ub.filter(stands_alone(ub)));
    lemma_same_firsts(
        sorted::<Finding>(ua.filter(stands_alone(ua))),
        sorted::<Finding>(ub.filter(stands_alone(ub))),
    );
}

/// A crate root is named as missing exactly when a unit of it recorded no
/// uses.
proof fn lemma_without_record(
    files: Map<Seq<char>, Seq<char>>,
    facts: Seq<char>,
    units: Seq<RunUnitView>,
    src: Seq<char>,
)
    ensures
        without_record(files, facts, units).contains(src) <==> lacks_record(
            files,
            facts,
            units,
            src,
        ),
    decreases units.len(),
{
    if units.len() > 0 {
        let front = units.drop_last();
        let before = without_record(files, facts, front);
        let all = without_record(files, facts, units);
        let last = units.len() - 1;
        lemma_without_record(files, facts, front, src);
        if all.contains(src) {
            let k = choose|k: int| 0 <= k < all.len() && all[k] == src;
            if k < before.len() {
                assert(before[k] == src);
                let i = choose|i: int|
                    0 <= i < front.len() && no_record(files, facts, #[trigger] front[i], src);
                assert(no_record(files, facts, units[i], src));
            } else {
                assert(no_record(files, facts, units[last], src));
            }
        }
        if lacks_record(files, facts, units, src) {
            let i = choose|i: int|
                0 <= i < units.len() && no_record(files, facts, #[trigger] units[i], src);
            if i < last {
                assert(no_record(files, facts, front[i], src));
                let k = choose|k: int| 0 <= k < before.len() && before[k] == src;
                assert(all[k] == src);
            } else {
                assert(all[before.len() as int] == src);
            }
        }
    }
}

spec fn lacks_record(
    files: Map<Seq<char>, Seq<char>>,
    facts: Seq<char>,
    units: Seq<RunUnitView>,
    src: Seq<char>,
) -> bool {
    exists|i: int| 0 <= i < units.len() && no_record(files, facts, #[trigger] units[i], src)
}

spec fn no_record(
    files: Map<Seq<char>, Seq<char>>,
    facts: Seq<char>,
    unit: RunUnitView,
    src: Seq<char>,
) -> bool {
    refs_of(files, facts, unit.unit) is None && unit.unit.src == src
}

/// Whether every unit of the one run is a unit of the other.
pub open spec fn units_among(units: Seq<RunUnitView>, other: Seq<RunUnitView>) -> bool {
    forall|i: int| 0 <= i < units.len() ==> other.contains(#[trigger] units[i])
}

/// Every item of a run stands where a unit recorded it.
proof fn lemma_found_in_unit(
    files: Map<Seq<char>, Seq<char>>,
    facts: Seq<char>,
    judged: Seq<Seq<char>>,
    units: Seq<RunUnitView>,
    at: int,
) -> (place: (int, int))
    requires
        0 <= at < found_items(files, facts, judged, units).len(),
    ensures
        0 <= place.0 < units.len(),
        judged_defs(files, facts, judged, units[place.0]) is Some,
        ({
            let defs = judged_defs(files, facts, judged, units[place.0])->0.defs;
            0 <= place.1 < defs.len() && found_items(files, facts, judged, units)[at].def
                == defs[place.1]
        }),
    decreases units.len(),
{
    let before = found_items(files, facts, judged, units.drop_last());
    if at < before.len() {
        lemma_found_in_unit(files, facts, judged, units.drop_last(), at)
    } else {
        (units.len() - 1, at - before.len())
    }
}

proof fn lemma_units_among(
    files: Map<Seq<char>, Seq<char>>,
    facts: Seq<char>,
    judged: Seq<Seq<char>>,
    units: Seq<RunUnitView>,
    other: Seq<RunUnitView>,
)
    requires
        units_among(units, other),
    ensures
        forall|src: Seq<char>| #[trigger]
            without_record(files, facts, units).contains(src) ==> without_record(
                files,
                facts,
                other,
            ).contains(src),
        forall|key: Seq<char>| #[trigger]
            uses(files, facts, units, key) ==> uses(files, facts, other, key),
        forall|section: Seq<char>| #[trigger]
            judged_section(files, facts, judged, units, section) ==> judged_section(
                files,
                facts,
                judged,
                other,
                section,
            ),
        forall|at: int|
            0 <= at < found_items(files, facts, judged, units).len() ==> has_item(
                found_items(files, facts, judged, other),
                (#[trigger] found_items(files, facts, judged, units)[at]).def,
            ),
{
    assert forall|src: Seq<char>| #[trigger]
        without_record(files, facts, units).contains(src) implies without_record(
        files,
        facts,
        other,
    ).contains(src) by {
        lemma_without_record(files, facts, units, src);
        lemma_without_record(files, facts, other, src);
        let i = choose|i: int|
            0 <= i < units.len() && no_record(files, facts, #[trigger] units[i], src);
        let j = choose|j: int| 0 <= j < other.len() && other[j] == units[i];
        assert(no_record(files, facts, other[j], src));
    }
    assert forall|key: Seq<char>| #[trigger] uses(files, facts, units, key) implies uses(
        files,
        facts,
        other,
        key,
    ) by {
        let i = choose|i: int|
            0 <= i < units.len() && unit_uses(files, facts, #[trigger] units[i], key);
        let j = choose|j: int| 0 <= j < other.len() && other[j] == units[i];
        assert(unit_uses(files, facts, other[j], key));
    }
    assert forall|section: Seq<char>| #[trigger]
        judged_section(files, facts, judged, units, section) implies judged_section(
        files,
        facts,
        judged,
        other,
        section,
    ) by {
        let i = choose|i: int|
            0 <= i < units.len() && has_section(files, facts, judged, #[trigger] units[i], section);
        let j = choose|j: int| 0 <= j < other.len() && other[j] == units[i];
        assert(has_section(files, facts, judged, other[j], section));
    }
    let found = found_items(files, facts, judged, units);
    let there = found_items(files, facts, judged, other);
    assert forall|at: int| 0 <= at < found.len() implies has_item(
        there,
        (#[trigger] found[at]).def,
    ) by {
        let (i, k) = lemma_found_in_unit(files, facts, judged, units, at);
        let j = choose|j: int| 0 <= j < other.len() && other[j] == units[i];
        lemma_found(files, facts, judged, other, j, k);
        let item = as_findings(judged_defs(files, facts, judged, other[j])->0, j)[k];
        let m = choose|m: int| 0 <= m < there.len() && there[m] == item;
        assert(there[m].def == found[at].def);
    }
}

/// What [`judge`] says of a run does not depend on the order in which cargo
/// built its units, nor on how often it named one: the same units lack a
/// record, the same keys are used, the same sections are judged, and the same
/// keys at the same places are found, in the same order.
pub proof fn judging_does_not_depend_on_the_order(
    files: Map<Seq<char>, Seq<char>>,
    facts: Seq<char>,
    judged: Seq<Seq<char>>,
    units: Seq<RunUnitView>,
    other: Seq<RunUnitView>,
)
    requires
        units_among(units, other),
        units_among(other, units),
    ensures
        without_record(files, facts, units).len() == 0 <==> without_record(
            files,
            facts,
            other,
        ).len() == 0,
        forall|src: Seq<char>| #[trigger]
            without_record(files, facts, units).contains(src) <==> without_record(
                files,
                facts,
                other,
            ).contains(src),
        used_keys(files, facts, units) == used_keys(files, facts, other),
        forall|section: Seq<char>| #[trigger]
            judged_section(files, facts, judged, units, section) <==> judged_section(
                files,
                facts,
                judged,
                other,
                section,
            ),
        same_places(
            findings_among(
                found_items(files, facts, judged, units),
                used_keys(files, facts, units),
            ),
            findings_among(
                found_items(files, facts, judged, other),
                used_keys(files, facts, other),
            ),
        ),
{
    lemma_units_among(files, facts, judged, units, other);
    lemma_units_among(files, facts, judged, other, units);
    let a = without_record(files, facts, units);
    let b = without_record(files, facts, other);
    if a.len() > 0 {
        assert(a.contains(a[0]));
    }
    if b.len() > 0 {
        assert(b.contains(b[0]));
    }
    assert(used_keys(files, facts, units) =~= used_keys(files, facts, other));
    findings_do_not_depend_on_the_order(
        found_items(files, facts, judged, units),
        found_items(files, facts, judged, other),
        used_keys(files, facts, units),
    );
}

/// A use that any unit of the run recorded counts, whichever unit cargo
/// finished first: the key is among the keys used.
pub proof fn a_recorded_use_counts(
    files: Map<Seq<char>, Seq<char>>,
    facts: Seq<char>,
    units: Seq<RunUnitView>,
    i: int,
    refs: Seq<Seq<char>>,
    key: Seq<char>,
)
    requires
        0 <= i < units.len(),
        text_at(files, units[i].unit.refs(facts)) == Some(refs_text(refs)),
        forall|k: int| 0 <= k < refs.len() ==> keeps_to_line(#[trigger] refs[k]),
        refs.contains(key),
    ensures
        used_keys(files, facts, units).contains(key),
{
    refs_read_back(refs);
    assert(unit_uses(files, facts, units[i], key));
}

proof fn lemma_found(
    files: Map<Seq<char>, Seq<char>>,
    facts: Seq<char>,
    judged: Seq<Seq<char>>,
    units: Seq<RunUnitView>,
    i: int,
    k: int,
)
    requires
        0 <= i < units.len(),
        judged_defs(files, facts, judged, units[i]) is Some,
        0 <= k < judged_defs(files, facts, judged, units[i])->0.defs.len(),
    ensures
        found_items(files, facts, judged, units).contains(
            as_findings(judged_defs(files, facts, judged, units[i])->0, i)[k],
        ),
    decreases units.len(),
{
    let item = as_findings(judged_defs(files, facts, judged, units[i])->0, i)[k];
    let all = found_items(files, facts, judged, units);
    let before = found_items(files, facts, judged, units.drop_last());
    if i == units.len() - 1 {
        assert(all[before.len() + k] == item);
    } else {
        lemma_found(files, facts, judged, units.drop_last(), i, k);
        let at = choose|at: int| 0 <= at < before.len() && before[at] == item;
        assert(all[at] == item);
    }
}

/// An item that a judged unit recorded is found, unless a use of it was
/// recorded or the type or trait it belongs to is itself unused.
pub proof fn a_recorded_item_is_judged(
    files: Map<Seq<char>, Seq<char>>,
    facts: Seq<char>,
    judged: Seq<Seq<char>>,
    units: Seq<RunUnitView>,
    i: int,
    text: Seq<char>,
    defs: DefsView,
    k: int,
)
    requires
        0 <= i < units.len(),
        judged.contains(units[i].package_id),
        text_at(files, units[i].unit.defs(facts)) == Some(text),
        defs_of_text(text) == Some(defs),
        0 <= k < defs.defs.len(),
    ensures
        ({
            let found = found_items(files, facts, judged, units);
            let refs = used_keys(files, facts, units);
            ||| item_used(found, refs, defs.defs[k].position())
            ||| has_key(unused_items(found, refs), defs.defs[k].parent)
            ||| has_position(findings_among(found, refs), defs.defs[k].position())
        }),
{
    let found = found_items(files, facts, judged, units);
    let refs = used_keys(files, facts, units);
    lemma_found(files, facts, judged, units, i, k);
    let item = as_findings(defs, i)[k];
    if !item_used(found, refs, item.def.position()) && !has_key(
        unused_items(found, refs),
        item.def.parent,
    ) {
        unused_items_are_found(found, refs, item);
    }
}

/// An item is found when no use of it was recorded: neither its position nor
/// any key that a unit gave the item there is among the keys used, and every
/// item with the key of its type or trait has a recorded use of its own.
pub proof fn an_item_without_a_recorded_use_is_found(
    found: Seq<FindingView>,
    refs: Set<Seq<char>>,
    item: FindingView,
)
    requires
        found.contains(item),
        !refs.contains(item.def.position()),
        forall|m: int|
            0 <= m < found.len() && (#[trigger] found[m]).def.position() == item.def.position()
                ==> !refs.contains(found[m].def.key),
        forall|m: int|
            0 <= m < found.len() && (#[trigger] found[m]).def.key == item.def.parent ==> (
            refs.contains(found[m].def.key) || refs.contains(found[m].def.position())),
    ensures
        exists|j: int|
            0 <= j < findings_among(found, refs).len() && (#[trigger] findings_among(
                found,
                refs,
            )[j]).def.position() == item.def.position(),
{
    let unused = unused_items(found, refs);
    if has_key(unused, item.def.parent) {
        let k = choose|k: int|
            0 <= k < unused.len() && (#[trigger] unused[k]).def.key == item.def.parent;
        let other = unused[k];
        assert(unused.contains(other));
        lemma_filtered(found, is_unused(found, refs), other);
        let m = choose|m: int| 0 <= m < found.len() && found[m] == other;
        assert(found[m].def.position() == other.def.position());
    }
    unused_items_are_found(found, refs, item);
}

/// What is found has no recorded use: it is an item of the run, neither its
/// position nor any key that a unit gave the item there is among the keys
/// used, and no item with the key of its type or trait is without a recorded
/// use.
pub proof fn a_found_item_has_no_recorded_use(
    found: Seq<FindingView>,
    refs: Set<Seq<char>>,
    j: int,
)
    requires
        0 <= j < findings_among(found, refs).len(),
    ensures
        ({
            let finding = findings_among(found, refs)[j];
            &&& found.contains(finding)
            &&& !refs.contains(finding.def.position())
            &&& forall|m: int|
                0 <= m < found.len() && (#[trigger] found[m]).def.position()
                    == finding.def.position() ==> !refs.contains(found[m].def.key)
            &&& forall|m: int|
                0 <= m < found.len() && (#[trigger] found[m]).def.key == finding.def.parent
                    ==> refs.contains(found[m].def.position()) || exists|n: int|
                    0 <= n < found.len() && (#[trigger] found[n]).def.position()
                        == found[m].def.position() && refs.contains(found[n].def.key)
        }),
{
    let finding = findings_among(found, refs)[j];
    let unused = unused_items(found, refs);
    findings_are_unused(found, refs, j);
    assert forall|m: int|
        0 <= m < found.len() && (#[trigger] found[m]).def.key == finding.def.parent implies (
    refs.contains(found[m].def.position()) || exists|n: int|
        0 <= n < found.len() && (#[trigger] found[n]).def.position() == found[m].def.position()
            && refs.contains(found[n].def.key)) by {
        if !item_used(found, refs, found[m].def.position()) {
            assert(found.contains(found[m]));
            lemma_filtered(found, is_unused(found, refs), found[m]);
            let k = choose|k: int| 0 <= k < unused.len() && unused[k] == found[m];
            assert(unused[k].def.key == finding.def.parent);
        }
    }
}

/// An item with a recorded use is not found: where the position, or a key that
/// a unit gave the item there, is among the keys used, no finding has it.
pub proof fn an_item_with_a_recorded_use_is_not_found(
    found: Seq<FindingView>,
    refs: Set<Seq<char>>,
    m: int,
)
    requires
        0 <= m < found.len(),
        refs.contains(found[m].def.key) || refs.contains(found[m].def.position()),
    ensures
        forall|j: int|
            0 <= j < findings_among(found, refs).len() ==> (#[trigger] findings_among(
                found,
                refs,
            )[j]).def.position() != found[m].def.position(),
{
    assert forall|j: int| 0 <= j < findings_among(found, refs).len() implies (
    #[trigger] findings_among(found, refs)[j]).def.position() != found[m].def.position() by {
        a_found_item_has_no_recorded_use(found, refs, j);
    }
}

/// Of two findings, the one in the file that comes first in the order of text
/// comes first, in one file the one with the lower place, and at one place the
/// one with the key that comes first.
pub proof fn findings_come_by_file_place_and_key(
    found: Seq<FindingView>,
    refs: Set<Seq<char>>,
    i: int,
    j: int,
)
    requires
        0 <= i < j < findings_among(found, refs).len(),
    ensures
        ({
            let a = findings_among(found, refs)[i].def;
            let b = findings_among(found, refs)[j].def;
            ||| text_before(a.file, b.file)
            ||| a.file == b.file && a.lo < b.lo
            ||| a.file == b.file && a.lo == b.lo && text_before(a.key, b.key)
        }),
{
    findings_are_in_order(found, refs);
    assert(Finding::before(findings_among(found, refs)[i], findings_among(found, refs)[j]));
}

/// The items of a run are those that its judged units recorded: an item is
/// there exactly when the unit's package is judged, the unit left a record of
/// its items, and the item is in it.
pub proof fn the_items_of_a_run_are_those_recorded(
    files: Map<Seq<char>, Seq<char>>,
    facts: Seq<char>,
    judged: Seq<Seq<char>>,
    units: Seq<RunUnitView>,
    item: FindingView,
)
    ensures
        found_items(files, facts, judged, units).contains(item) <==> {
            &&& 0 <= item.unit < units.len()
            &&& judged.contains(units[item.unit].package_id)
            &&& files.dom().contains(units[item.unit].unit.defs(facts))
            &&& defs_of_text(files[units[item.unit].unit.defs(facts)]) matches Some(defs)
                && defs.section == item.section && defs.defs.contains(item.def)
        },
    decreases units.len(),
{
    let all = found_items(files, facts, judged, units);
    if units.len() > 0 {
        let front = units.drop_last();
        let last = units.len() - 1;
        let before = found_items(files, facts, judged, front);
        the_items_of_a_run_are_those_recorded(files, facts, judged, front, item);
        if before.contains(item) {
            let k = choose|k: int| 0 <= k < before.len() && before[k] == item;
            assert(all[k] == item);
        }
        if all.contains(item) && !before.contains(item) {
            let k = choose|k: int| 0 <= k < all.len() && all[k] == item;
            if k < before.len() {
                assert(before[k] == item);
            }
            let defs = judged_defs(files, facts, judged, units[last])->0;
            assert(item == as_findings(defs, last)[k - before.len()]);
            assert(defs.defs[k - before.len()] == item.def);
        }
        if item.unit == last && judged_defs(files, facts, judged, units[last]) is Some {
            let defs = judged_defs(files, facts, judged, units[last])->0;
            if defs.section == item.section && defs.defs.contains(item.def) {
                let k = choose|k: int| 0 <= k < defs.defs.len() && defs.defs[k] == item.def;
                assert(all[before.len() + k] == item);
            }
        }
        if 0 <= item.unit < last {
            assert(front[item.unit] == units[item.unit]);
        }
    }
}

/// The keys used are the lines of the units' records of uses: of each unit's
/// own, and where a test unit has none, of the plain unit's.
pub proof fn the_keys_used_are_those_recorded(
    files: Map<Seq<char>, Seq<char>>,
    facts: Seq<char>,
    units: Seq<RunUnitView>,
    key: Seq<char>,
)
    ensures
        used_keys(files, facts, units).contains(key) <==> exists|i: int|
            0 <= i < units.len() && ({
                let own = (#[trigger] units[i]).unit.refs(facts);
                let plain = units[i].unit.plain().refs(facts);
                ||| files.dom().contains(own) && lines(files[own]).contains(key)
                ||| !files.dom().contains(own) && units[i].unit.test && files.dom().contains(plain)
                    && lines(files[plain]).contains(key)
            }),
{
    if used_keys(files, facts, units).contains(key) {
        let i = choose|i: int|
            0 <= i < units.len() && unit_uses(files, facts, #[trigger] units[i], key);
        assert(units[i] == units[i]);
    }
    if exists|i: int|
        0 <= i < units.len() && ({
            let own = (#[trigger] units[i]).unit.refs(facts);
            let plain = units[i].unit.plain().refs(facts);
            ||| files.dom().contains(own) && lines(files[own]).contains(key)
            ||| !files.dom().contains(own) && units[i].unit.test && files.dom().contains(plain)
                && lines(files[plain]).contains(key)
        }) {
        let i = choose|i: int|
            0 <= i < units.len() && ({
                let own = (#[trigger] units[i]).unit.refs(facts);
                let plain = units[i].unit.plain().refs(facts);
                ||| files.dom().contains(own) && lines(files[own]).contains(key)
                ||| !files.dom().contains(own) && units[i].unit.test && files.dom().contains(plain)
                    && lines(files[plain]).contains(key)
            });
        assert(unit_uses(files, facts, units[i], key));
    }
}

/// The run is judged exactly when each of its units left a record of its
/// uses, a test unit its own or the plain unit's.
pub proof fn a_run_is_judged_when_every_unit_left_a_record(
    files: Map<Seq<char>, Seq<char>>,
    facts: Seq<char>,
    units: Seq<RunUnitView>,
)
    ensures
        without_record(files, facts, units).len() == 0 <==> forall|i: int|
            0 <= i < units.len() ==> files.dom().contains((#[trigger] units[i]).unit.refs(facts))
                || (units[i].unit.test && files.dom().contains(units[i].unit.plain().refs(facts))),
        forall|i: int|
            0 <= i < units.len() && !files.dom().contains((#[trigger] units[i]).unit.refs(facts))
                && !(units[i].unit.test && files.dom().contains(units[i].unit.plain().refs(facts)))
                ==> without_record(files, facts, units).contains(units[i].unit.src),
{
    let all = without_record(files, facts, units);
    assert forall|i: int|
        0 <= i < units.len() && !files.dom().contains((#[trigger] units[i]).unit.refs(facts))
            && !(units[i].unit.test && files.dom().contains(
            units[i].unit.plain().refs(facts),
        )) implies all.contains(units[i].unit.src) by {
        lemma_without_record(files, facts, units, units[i].unit.src);
        assert(no_record(files, facts, units[i], units[i].unit.src));
    }
    if all.len() > 0 {
        lemma_without_record(files, facts, units, all[0]);
        assert(all.contains(all[0]));
        let i = choose|i: int|
            0 <= i < units.len() && no_record(files, facts, #[trigger] units[i], all[0]);
        assert(units[i] == units[i]);
    }
}

/// What a unit of the run recorded is found unless a use of it was recorded:
/// where no record of uses holds the item's position or a key that a unit gave
/// the item there, and every item with the key of its type or trait has a use
/// of its own recorded, there is a finding at its position.
pub proof fn a_recorded_item_is_found_unless_a_record_holds_its_use(
    files: Map<Seq<char>, Seq<char>>,
    facts: Seq<char>,
    judged: Seq<Seq<char>>,
    units: Seq<RunUnitView>,
    item: FindingView,
)
    requires
        found_items(files, facts, judged, units).contains(item),
        forall|text: Seq<char>|
            #![trigger lines(text)]
            is_record_of_uses(files, facts, units, text) ==> !lines(text).contains(
                item.def.position(),
            ),
        forall|text: Seq<char>, m: int|
            #![trigger lines(text), found_items(files, facts, judged, units)[m]]
            is_record_of_uses(files, facts, units, text) && 0 <= m < found_items(
                files,
                facts,
                judged,
                units,
            ).len() && found_items(files, facts, judged, units)[m].def.position()
                == item.def.position() ==> !lines(text).contains(
                found_items(files, facts, judged, units)[m].def.key,
            ),
        forall|m: int|
            0 <= m < found_items(files, facts, judged, units).len() && (#[trigger] found_items(
                files,
                facts,
                judged,
                units,
            )[m]).def.key == item.def.parent ==> exists|text: Seq<char>|
                #![trigger lines(text)]
                is_record_of_uses(files, facts, units, text) && lines(text).contains(
                    item.def.parent,
                ),
    ensures
        exists|j: int|
            0 <= j < findings_among(
                found_items(files, facts, judged, units),
                used_keys(files, facts, units),
            ).len() && (#[trigger] findings_among(
                found_items(files, facts, judged, units),
                used_keys(files, facts, units),
            )[j]).def.position() == item.def.position(),
{
    let found = found_items(files, facts, judged, units);
    let refs = used_keys(files, facts, units);
    if refs.contains(item.def.position()) {
        lemma_used_in_record(files, facts, units, item.def.position());
    }
    assert forall|m: int|
        0 <= m < found.len() && (#[trigger] found[m]).def.position()
            == item.def.position() implies !refs.contains(found[m].def.key) by {
        if refs.contains(found[m].def.key) {
            lemma_used_in_record(files, facts, units, found[m].def.key);
        }
    }
    assert forall|m: int|
        0 <= m < found.len() && (#[trigger] found[m]).def.key == item.def.parent implies (
    refs.contains(found[m].def.key) || refs.contains(found[m].def.position())) by {
        let text = choose|text: Seq<char>|
            #![trigger lines(text)]
            is_record_of_uses(files, facts, units, text) && lines(text).contains(item.def.parent);
        the_keys_used_are_those_recorded(files, facts, units, item.def.parent);
    }
    an_item_without_a_recorded_use_is_found(found, refs, item);
}

/// Whether `text` is a unit's record of what it uses, a test unit's own or,
/// where it has none, the plain unit's.
pub open spec fn is_record_of_uses(
    files: Map<Seq<char>, Seq<char>>,
    facts: Seq<char>,
    units: Seq<RunUnitView>,
    text: Seq<char>,
) -> bool {
    exists|i: int|
        0 <= i < units.len() && ({
            let own = (#[trigger] units[i]).unit.refs(facts);
            let plain = units[i].unit.plain().refs(facts);
            ||| files.dom().contains(own) && files[own] == text
            ||| !files.dom().contains(own) && units[i].unit.test && files.dom().contains(plain)
                && files[plain] == text
        })
}

proof fn lemma_used_in_record(
    files: Map<Seq<char>, Seq<char>>,
    facts: Seq<char>,
    units: Seq<RunUnitView>,
    key: Seq<char>,
)
    requires
        used_keys(files, facts, units).contains(key),
    ensures
        exists|text: Seq<char>|
            #![trigger lines(text)]
            is_record_of_uses(files, facts, units, text) && lines(text).contains(key),
{
    the_keys_used_are_those_recorded(files, facts, units, key);
    let i = choose|i: int|
        0 <= i < units.len() && ({
            let own = (#[trigger] units[i]).unit.refs(facts);
            let plain = units[i].unit.plain().refs(facts);
            ||| files.dom().contains(own) && lines(files[own]).contains(key)
            ||| !files.dom().contains(own) && units[i].unit.test && files.dom().contains(plain)
                && lines(files[plain]).contains(key)
        });
    let own = units[i].unit.refs(facts);
    let text = if files.dom().contains(own) {
        files[own]
    } else {
        files[units[i].unit.plain().refs(facts)]
    };
    assert(is_record_of_uses(files, facts, units, text));
    assert(lines(text).contains(key));
}

/// Whether a unit left no record of its uses, a test unit neither its own nor
/// the plain unit's.
pub open spec fn left_no_record(
    files: Map<Seq<char>, Seq<char>>,
    facts: Seq<char>,
) -> spec_fn(RunUnitView) -> bool {
    |u: RunUnitView|
        !files.dom().contains(u.unit.refs(facts)) && !(u.unit.test && files.dom().contains(
            u.unit.plain().refs(facts),
        ))
}

/// The crate roots named as missing are those of the units that left no
/// record, one for each unit and in the order of the run.
pub proof fn the_units_without_a_record_are_named_in_order(
    files: Map<Seq<char>, Seq<char>>,
    facts: Seq<char>,
    units: Seq<RunUnitView>,
)
    ensures
        ({
            let lacking = units.filter(left_no_record(files, facts));
            let named = without_record(files, facts, units);
            &&& named.len() == lacking.len()
            &&& forall|i: int| 0 <= i < named.len() ==> #[trigger] named[i] == lacking[i].unit.src
        }),
    decreases units.len(),
{
    reveal(Seq::filter);
    if units.len() > 0 {
        the_units_without_a_record_are_named_in_order(files, facts, units.drop_last());
    }
}

/// A section is judged exactly when some judged unit left a record of its
/// items under it, whether any of them is found or not.
pub proof fn the_sections_judged_are_those_recorded(
    files: Map<Seq<char>, Seq<char>>,
    facts: Seq<char>,
    judged: Seq<Seq<char>>,
    units: Seq<RunUnitView>,
    section: Seq<char>,
)
    ensures
        judged_section(files, facts, judged, units, section) <==> exists|i: int|
            0 <= i < units.len() && judged.contains((#[trigger] units[i]).package_id)
                && files.dom().contains(units[i].unit.defs(facts)) && (defs_of_text(
                files[units[i].unit.defs(facts)],
            ) matches Some(defs) && defs.section == section),
{
    if judged_section(files, facts, judged, units, section) {
        let i = choose|i: int|
            0 <= i < units.len() && has_section(files, facts, judged, #[trigger] units[i], section);
        assert(judged.contains(units[i].package_id));
    }
    if exists|i: int|
        0 <= i < units.len() && judged.contains((#[trigger] units[i]).package_id)
            && files.dom().contains(units[i].unit.defs(facts)) && (defs_of_text(
            files[units[i].unit.defs(facts)],
        ) matches Some(defs) && defs.section == section) {
        let i = choose|i: int|
            0 <= i < units.len() && judged.contains((#[trigger] units[i]).package_id)
                && files.dom().contains(units[i].unit.defs(facts)) && (defs_of_text(
                files[units[i].unit.defs(facts)],
            ) matches Some(defs) && defs.section == section);
        assert(has_section(files, facts, judged, units[i], section));
    }
}

} // verus!
