//! The messages that cargo prints while it builds the run: the units it
//! names, and its closing message.

use serde_json::Value as Json;

use vstd::prelude::*;
use vstd::string::*;

use crate::args::{Output, OutputView};
use crate::json::one_field;
use crate::judge::{RunUnit, RunUnitView};
use crate::lint::counted_as;
use crate::paths::{
    a_file_lies_in_the_directory_it_is_joined_to, file_name, file_name_of, joined_path,
};
use crate::records::{Unit, UnitView};
use crate::text::{
    chars_of, contains, cut, lemma_cut, lemma_cut_after, opt_view, same, split_once, starts_with,
    strip_prefix, viewed, views,
};

verus! {

/// What is read off one of cargo's messages. A field that the message does
/// not have, or has as something else, is none.
pub struct CargoMessage {
    pub reason: Option<String>,
    pub package_id: Option<String>,
    pub manifest_path: Option<String>,
    /// The target, as compact JSON.
    pub target: String,
    pub target_name: Option<String>,
    pub src_path: Option<String>,
    pub kinds: Option<Vec<Option<String>>>,
    /// Whether it is built as a test harness.
    pub test: Option<bool>,
    pub filenames: Option<Vec<Option<String>>>,
}

/// What a [`CargoMessage`] says.
pub struct CargoMessageView {
    pub reason: Option<Seq<char>>,
    pub package_id: Option<Seq<char>>,
    pub manifest_path: Option<Seq<char>>,
    pub target: Seq<char>,
    pub target_name: Option<Seq<char>>,
    pub src_path: Option<Seq<char>>,
    pub kinds: Option<Seq<Option<Seq<char>>>>,
    pub test: Option<bool>,
    pub filenames: Option<Seq<Option<Seq<char>>>>,
}

pub open spec fn opt_views(texts: Option<Vec<Option<String>>>) -> Option<Seq<Option<Seq<char>>>> {
    match texts {
        Some(texts) => Some(texts@.map_values(|text: Option<String>| opt_view(text))),
        None => None,
    }
}

impl View for CargoMessage {
    type V = CargoMessageView;

    open spec fn view(&self) -> CargoMessageView {
        CargoMessageView {
            reason: opt_view(self.reason),
            package_id: opt_view(self.package_id),
            manifest_path: opt_view(self.manifest_path),
            target: self.target@,
            target_name: opt_view(self.target_name),
            src_path: opt_view(self.src_path),
            kinds: opt_views(self.kinds),
            test: self.test,
            filenames: opt_views(self.filenames),
        }
    }
}

/// What `serde_json::from_str` reads off a line, if the line is JSON.
pub uninterp spec fn message_in(line: Seq<char>) -> Option<CargoMessageView>;

/// `serde_json::from_str` of a line, and the fields of the value it reads. The
/// fields are a function of the line. The target is printed again by
/// `serde_json`, as compact JSON, which has no end of a line in it.
#[verifier::external_body]
fn read_message(line: &str) -> (message: Option<CargoMessage>)
    ensures
        match message {
            Some(message) => message_in(line@) == Some(message@) && one_field(message.target@),
            None => message_in(line@) is None,
        },
{
    let m: Json = serde_json::from_str(line).ok()?;
    let text = |v: &Json| v.as_str().map(str::to_string);
    let texts = |v: &Json| v.as_array().map(|a| a.iter().map(text).collect());
    let target = &m["target"];
    Some(CargoMessage {
        reason: text(&m["reason"]), package_id: text(&m["package_id"]),
        manifest_path: text(&m["manifest_path"]), target: target.to_string(),
        target_name: text(&target["name"]), src_path: text(&target["src_path"]),
        kinds: texts(&target["kind"]), test: m["profile"]["test"].as_bool(),
        filenames: texts(&m["filenames"]),
    })
}

/// A line of JSON that holds an object, printed again with a field of it set.
pub uninterp spec fn with_field_in(
    line: Seq<char>,
    field: Seq<char>,
    value: bool,
) -> Option<Seq<char>>;

/// `serde_json::from_str` of a line into an object, and `to_string` of the
/// object with its field `field` set. What comes out is a function of the
/// line, the field and the value, and none when the line is no object. It is
/// one line.
#[verifier::external_body]
fn set_field(line: &str, field: &str, value: bool) -> (out: Option<String>)
    ensures
        opt_view(out) == with_field_in(line@, field@, value),
        out matches Some(text) ==> one_field(text@),
{
    let mut object: serde_json::Map<String, Json> = serde_json::from_str(line).ok()?;
    object.insert(field.to_string(), Json::Bool(value));
    serde_json::to_string(&object).ok()
}

/// A line of JSON, printed again as compact JSON.
pub uninterp spec fn compact_in(line: Seq<char>) -> Option<Seq<char>>;

/// `serde_json::from_str` of a line, and `to_string` of the value it reads.
/// What comes out is a function of the line, and none when the line is no
/// JSON. It is one line.
#[verifier::external_body]
fn compact(line: &str) -> (out: Option<String>)
    ensures
        opt_view(out) == compact_in(line@),
        out matches Some(text) ==> one_field(text@),
{
    let value: Json = serde_json::from_str(line).ok()?;
    serde_json::to_string(&value).ok()
}

/// Whether the message is of that reason.
pub open spec fn is_for(message: CargoMessageView, reason: Seq<char>) -> bool {
    message.reason == Some(reason)
}

/// A target's name as a crate's.
pub open spec fn crate_name(target: Seq<char>) -> Seq<char> {
    target.map_values(
        |c: char|
            if c == '-' {
                '_'
            } else {
                c
            },
    )
}

/// What stands in `name` between `prefix` and the first `.`, if that is
/// nothing or starts with a `-`.
pub open spec fn extra_behind(name: Seq<char>, prefix: Seq<char>) -> Option<Seq<char>> {
    let rest = name.skip(prefix.len() as int);
    let extra = rest.take(cut(rest, '.'));
    if starts_with(name, prefix) && cut(rest, '.') < rest.len() && (extra.len() == 0 || extra[0]
        == '-') {
        Some(extra)
    } else {
        None
    }
}

/// The extra file name that the name of a file shows.
pub open spec fn extra_in_file(file: Option<Seq<char>>, krate: Seq<char>) -> Option<Seq<char>> {
    match file {
        Some(path) => match file_name(path) {
            Some(name) => match extra_behind(name, "lib"@ + krate) {
                Some(extra) => Some(extra),
                None => extra_behind(name, krate),
            },
            None => None,
        },
        None => None,
    }
}

/// The first extra file name that one of the files shows.
pub open spec fn extra_in_files(files: Seq<Option<Seq<char>>>, krate: Seq<char>) -> Option<
    Seq<char>,
>
    decreases files.len(),
{
    if files.len() == 0 {
        None
    } else {
        match extra_in_file(files[0], krate) {
            Some(extra) => Some(extra),
            None => extra_in_files(files.skip(1), krate),
        }
    }
}

/// Cargo's `-C extra-filename` for an artifact, as the files it lists show it.
pub open spec fn extra_of(message: CargoMessageView) -> Option<Seq<char>> {
    match (message.target_name, message.filenames) {
        (Some(name), Some(files)) => extra_in_files(files, crate_name(name)),
        _ => None,
    }
}

/// Whether the message is an artifact of a workspace member.
pub open spec fn is_of_member(message: CargoMessageView, members: Seq<Seq<char>>) -> bool {
    is_for(message, "compiler-artifact"@) && (message.package_id matches Some(id)
        && members.contains(id))
}

/// Whether the artifact is a build script.
pub open spec fn is_build_script(kinds: Seq<Option<Seq<char>>>) -> bool {
    kinds.contains(Some("custom-build"@))
}

/// The unit of an artifact message: the artifact is a workspace member's and
/// no build script, and the message says all there is to a unit.
pub open spec fn unit_in(message: CargoMessageView, members: Seq<Seq<char>>) -> Option<
    RunUnitView,
> {
    if !is_of_member(message, members) {
        None
    } else {
        match (
            message.kinds,
            message.src_path,
            message.test,
            extra_of(message),
            message.manifest_path,
        ) {
            (Some(kinds), Some(src), Some(test), Some(extra_filename), Some(manifest_path)) => {
                if is_build_script(kinds) {
                    None
                } else {
                    Some(
                        RunUnitView {
                            unit: UnitView { src, canonical: src, test, extra_filename },
                            package_id: message.package_id->0,
                            manifest_path,
                            target: message.target,
                        },
                    )
                }
            },
            _ => None,
        }
    }
}

/// The build script of an artifact message, as the unit its counts are
/// recorded under. The files it lists do not show an extra file name.
pub open spec fn build_script_in(message: CargoMessageView, members: Seq<Seq<char>>) -> Option<
    UnitView,
> {
    match (message.kinds, message.src_path) {
        (Some(kinds), Some(src)) => if is_of_member(message, members) && is_build_script(kinds) {
            Some(
                UnitView { src, canonical: src, test: false, extra_filename: Seq::empty() },
            )
        } else {
            None
        },
        _ => None,
    }
}

/// A build script's count is written where the run looks for it, whatever
/// extra file name the script is built with.
pub proof fn a_build_scripts_count_is_found(
    message: CargoMessageView,
    members: Seq<Seq<char>>,
    unit: UnitView,
    facts: Seq<char>,
)
    requires
        build_script_in(message, members) is Some,
        !unit.test,
    ensures
        ({
            let script = build_script_in(message, members)->0;
            counted_as(unit, "build_script_build"@).over(facts) == (UnitView {
                canonical: unit.canonical,
                ..script
            }).over(facts)
        }),
{
}

fn name_of_crate(target: &str) -> (name: String)
    ensures
        name@ == crate_name(target@),
{
    let chars = chars_of(target);
    let mut name = String::new();
    let mut i: usize = 0;
    assert(name@ =~= crate_name(target@).take(0));
    while i < chars.len()
        invariant
            chars@ == target@,
            i <= chars@.len(),
            name@ == crate_name(target@).take(i as int),
        decreases chars@.len() - i,
    {
        let ghost before = name@;
        if chars[i] == '-' {
            proof {
                reveal_strlit("_");
            }
            name.append("_");
        } else {
            assert(target@.subrange(i as int, i + 1) =~= seq![target@[i as int]]);
            name.append(target.substring_char(i, i + 1));
        }
        assert(name@ =~= before.push(crate_name(target@)[i as int]));
        assert(crate_name(target@).take(i + 1) =~= before.push(crate_name(target@)[i as int]));
        i = i + 1;
    }
    assert(crate_name(target@).take(i as int) =~= crate_name(target@));
    name
}

fn find_extra(name: &str, prefix: &str) -> (extra: Option<String>)
    ensures
        opt_view(extra) == extra_behind(name@, prefix@),
{
    match strip_prefix(name, prefix) {
        Some(rest) => match split_once(rest.as_str(), '.') {
            Some((extra, _)) => {
                let n = extra.as_str().unicode_len();
                if n == 0 || extra.as_str().get_char(0) == '-' {
                    Some(extra)
                } else {
                    None
                }
            },
            None => None,
        },
        None => None,
    }
}

/// Cargo's `-C extra-filename` for an artifact, read off the name of any file
/// it lists: `libdemo-<hash>.rmeta`, or `libdemo_macros-<hash>.dylib` for a
/// proc-macro cargo builds in full for a dependent and never checks.
pub fn extra_filename(message: &CargoMessage) -> (extra: Option<String>)
    ensures
        opt_view(extra) == extra_of(message@),
{
    let (name, files) = match (&message.target_name, &message.filenames) {
        (Some(name), Some(files)) => (name, files),
        _ => {
            return None;
        },
    };
    let krate = name_of_crate(name.as_str());
    let library = "lib".to_owned().concat(krate.as_str());
    let ghost all = files@.map_values(|text: Option<String>| opt_view(text));
    let mut i: usize = 0;
    assert(all.skip(0) =~= all);
    while i < files.len()
        invariant
            all == files@.map_values(|text: Option<String>| opt_view(text)),
            i <= files@.len(),
            library@ == "lib"@ + krate@,
            extra_of(message@) == extra_in_files(all, krate@),
            extra_in_files(all, krate@) == extra_in_files(all.skip(i as int), krate@),
        decreases files@.len() - i,
    {
        assert(all.skip(i as int)[0] == opt_view(files@[i as int]));
        assert(all.skip(i as int).skip(1) =~= all.skip(i + 1));
        if let Some(path) = &files[i] {
            if let Some(name) = file_name_of(path.as_str()) {
                let extra = find_extra(name.as_str(), library.as_str());
                if extra.is_some() {
                    return extra;
                }
                let extra = find_extra(name.as_str(), krate.as_str());
                if extra.is_some() {
                    return extra;
                }
            }
        }
        i = i + 1;
    }
    assert(all.skip(i as int).len() == 0);
    None
}

fn has_reason(message: &CargoMessage, reason: &str) -> (r: bool)
    ensures
        r == is_for(message@, reason@),
{
    match &message.reason {
        Some(text) => same(text.as_str(), reason),
        None => false,
    }
}

fn of_member(message: &CargoMessage, members: &Vec<String>) -> (r: bool)
    ensures
        r == is_of_member(message@, views(members@)),
{
    if !has_reason(message, "compiler-artifact") {
        return false;
    }
    match &message.package_id {
        Some(id) => contains(members, id.as_str()),
        None => false,
    }
}

fn has_custom_build(kinds: &Vec<Option<String>>) -> (r: bool)
    ensures
        r == is_build_script(kinds@.map_values(|text: Option<String>| opt_view(text))),
{
    let ghost all = kinds@.map_values(|text: Option<String>| opt_view(text));
    let mut i: usize = 0;
    while i < kinds.len()
        invariant
            all == kinds@.map_values(|text: Option<String>| opt_view(text)),
            i <= kinds@.len(),
            forall|j: int| 0 <= j < i ==> #[trigger] all[j] != Some("custom-build"@),
        decreases kinds@.len() - i,
    {
        assert(all[i as int] == opt_view(kinds@[i as int]));
        if let Some(kind) = &kinds[i] {
            if same(kind.as_str(), "custom-build") {
                return true;
            }
        }
        i = i + 1;
    }
    false
}

/// A unit of the run, if `message` is cargo's artifact message for a
/// workspace member other than a build script. One arrives for every unit the
/// run builds, a fresh one included.
pub fn unit_of(message: &CargoMessage, members: &Vec<String>) -> (unit: Option<RunUnit>)
    ensures
        match unit {
            Some(unit) => unit_in(message@, views(members@)) == Some(unit@),
            None => unit_in(message@, views(members@)) is None,
        },
{
    if !of_member(message, members) {
        return None;
    }
    let extra = extra_filename(message);
    match (
        &message.package_id,
        &message.kinds,
        &message.src_path,
        message.test,
        extra,
        &message.manifest_path,
    ) {
        (Some(id), Some(kinds), Some(src), Some(test), Some(extra_filename), Some(manifest)) => {
            if has_custom_build(kinds) {
                None
            } else {
                Some(
                    RunUnit {
                        unit: Unit {
                            src: src.clone(),
                            canonical: src.clone(),
                            test,
                            extra_filename,
                        },
                        package_id: id.clone(),
                        manifest_path: manifest.clone(),
                        target: message.target.clone(),
                    },
                )
            }
        },
        _ => None,
    }
}

/// The build script that `message` is about, if it is cargo's artifact
/// message for a workspace member's build script.
pub fn build_script_of(message: &CargoMessage, members: &Vec<String>) -> (unit: Option<Unit>)
    ensures
        match unit {
            Some(unit) => build_script_in(message@, views(members@)) == Some(unit@),
            None => build_script_in(message@, views(members@)) is None,
        },
{
    if !of_member(message, members) {
        return None;
    }
    match (&message.kinds, &message.src_path) {
        (Some(kinds), Some(src)) => if has_custom_build(kinds) {
            let unit = Unit {
                src: src.clone(),
                canonical: src.clone(),
                test: false,
                extra_filename: String::new(),
            };
            assert(unit@.extra_filename =~= Seq::<char>::empty());
            Some(unit)
        } else {
            None
        },
        _ => None,
    }
}

/// What cargo's messages said of the run so far.
pub struct Run {
    pub units: Vec<RunUnit>,
    pub build_scripts: Vec<Unit>,
    /// The line of cargo's closing message. It is held back, so that the
    /// findings printed after the build come before it.
    pub finished: Option<String>,
}

/// What a [`Run`] is.
pub struct RunView {
    pub units: Seq<RunUnitView>,
    pub build_scripts: Seq<UnitView>,
    pub finished: Option<Seq<char>>,
}

impl View for Run {
    type V = RunView;

    open spec fn view(&self) -> RunView {
        RunView {
            units: viewed(self.units@),
            build_scripts: viewed(self.build_scripts@),
            finished: opt_view(self.finished),
        }
    }
}

/// The items with one more, if there is one.
pub open spec fn and_then_one<A>(items: Seq<A>, one: Option<A>) -> Seq<A> {
    match one {
        Some(one) => items.push(one),
        None => items,
    }
}

/// Whether the target of each unit is on one line.
pub open spec fn targets_on_one_line(units: Seq<RunUnitView>) -> bool {
    forall|i: int| 0 <= i < units.len() ==> one_field((#[trigger] units[i]).target)
}

/// Whether the line is cargo's closing message.
pub open spec fn is_closing(message: Option<CargoMessageView>) -> bool {
    message matches Some(message) && is_for(message, "build-finished"@)
}

/// The run behind a line that holds `message`.
pub open spec fn after_line(
    run: RunView,
    line: Seq<char>,
    message: Option<CargoMessageView>,
    members: Seq<Seq<char>>,
) -> RunView {
    if is_closing(message) {
        RunView { finished: Some(line), ..run }
    } else {
        match message {
            Some(message) => RunView {
                units: and_then_one(run.units, unit_in(message, members)),
                build_scripts: and_then_one(run.build_scripts, build_script_in(message, members)),
                ..run
            },
            None => run,
        }
    }
}

impl Run {
    pub fn new() -> (run: Run)
        ensures
            run@ == (RunView {
                units: Seq::empty(),
                build_scripts: Seq::empty(),
                finished: None,
            }),
    {
        let run = Run { units: Vec::new(), build_scripts: Vec::new(), finished: None };
        assert(run@.units =~= Seq::<RunUnitView>::empty());
        assert(run@.build_scripts =~= Seq::<UnitView>::empty());
        run
    }

    /// Takes a line that holds `message`; whether the line is passed through
    /// when JSON was asked for.
    pub fn take_message(
        &mut self,
        line: &str,
        message: Option<&CargoMessage>,
        members: &Vec<String>,
    ) -> (passes: bool)
        ensures
            ({
                let message = match message {
                    Some(message) => Some(message@),
                    None => None,
                };
                &&& final(self)@ == after_line(old(self)@, line@, message, views(members@))
                &&& passes == !is_closing(message)
            }),
    {
        let ghost before = self@;
        if let Some(message) = message {
            if has_reason(message, "build-finished") {
                self.finished = Some(line.to_owned());
                assert(self@.units =~= before.units);
                assert(self@.build_scripts =~= before.build_scripts);
                return false;
            }
            if let Some(unit) = unit_of(message, members) {
                self.units.push(unit);
                assert(self@.units =~= before.units.push(unit@));
            }
            if let Some(script) = build_script_of(message, members) {
                self.build_scripts.push(script);
                assert(self@.build_scripts =~= before.build_scripts.push(script@));
            }
        }
        true
    }

    /// Takes a line that cargo printed; whether it is passed through to
    /// stdout.
    pub fn take_line(&mut self, line: &str, members: &Vec<String>, output: &Output) -> (r: bool)
        ensures
            final(self)@ == after_line(
                old(self)@,
                line@,
                message_in(line@),
                views(members@),
            ),
            r == (output@ is Json && !is_closing(message_in(line@))),
            targets_on_one_line(old(self)@.units) ==> targets_on_one_line(final(self)@.units),
    {
        let message = read_message(line);
        let passes = self.take_message(
            line,
            match &message {
                Some(message) => Some(message),
                None => None,
            },
            members,
        );
        match output {
            Output::Json(_) => passes,
            Output::Human => false,
            Output::Short => false,
        }
    }

    /// Cargo's closing message, in JSON output: as it said, for a build that
    /// failed, and else with whether the run succeeded.
    pub fn closing_line(&self, output: &Output, success: Option<bool>) -> (line: Option<String>)
        ensures
            opt_view(line) == match (output@, self@.finished, success) {
                (OutputView::Json(_), Some(line), Some(success)) => with_field_in(
                    line,
                    "success"@,
                    success,
                ),
                (OutputView::Json(_), Some(line), None) => compact_in(line),
                _ => None,
            },
            line matches Some(text) ==> one_field(text@),
    {
        match (output, &self.finished, success) {
            (Output::Json(_), Some(line), Some(success)) => set_field(
                line.as_str(),
                "success",
                success,
            ),
            (Output::Json(_), Some(line), None) => compact(line.as_str()),
            _ => None,
        }
    }
}

/// A crate's name is its target's with a `_` for every `-`: it is as long,
/// holds no `-`, and has the target's character wherever that is no `-`.
pub proof fn a_crate_is_named_like_its_target(target: Seq<char>)
    ensures
        crate_name(target).len() == target.len(),
        !crate_name(target).contains('-'),
        forall|i: int|
            0 <= i < target.len() && target[i] == '-' ==> #[trigger] crate_name(target)[i] == '_',
        forall|i: int|
            0 <= i < target.len() && target[i] != '-' ==> #[trigger] crate_name(target)[i]
                == target[i],
{
}

/// A file named for the crate, with the extra file name and an ending behind
/// it, shows that extra file name, with `lib` in front or without.
proof fn lemma_extra_behind(prefix: Seq<char>, extra: Seq<char>, ending: Seq<char>)
    requires
        extra.len() == 0 || extra[0] == '-',
        !extra.contains('.'),
    ensures
        extra_behind(prefix + extra.push('.') + ending, prefix) == Some(extra),
{
    let name = prefix + extra.push('.') + ending;
    assert(name.skip(prefix.len() as int) =~= extra.push('.') + ending);
    assert(name.take(prefix.len() as int) =~= prefix);
    lemma_cut_after(extra, '.', ending);
}

/// Whether a listed file is not named for the crate at all.
pub open spec fn is_of_another(file: Option<Seq<char>>, krate: Seq<char>) -> bool {
    file matches Some(path) ==> (file_name(path) matches Some(name) ==> !starts_with(
        name,
        "lib"@ + krate,
    ) && !starts_with(name, krate))
}

proof fn lemma_extra_in_files(files: Seq<Option<Seq<char>>>, krate: Seq<char>, f: int)
    requires
        0 <= f < files.len(),
        extra_in_file(files[f], krate) is Some,
        forall|g: int| 0 <= g < f ==> is_of_another(#[trigger] files[g], krate),
    ensures
        extra_in_files(files, krate) == extra_in_file(files[f], krate),
    decreases f,
{
    if f > 0 {
        assert(is_of_another(files[0], krate));
        let rest = files.skip(1);
        assert(rest[f - 1] == files[f]);
        assert forall|g: int| 0 <= g < f - 1 implies is_of_another(#[trigger] rest[g], krate) by {
            assert(is_of_another(files[g + 1], krate));
        }
        lemma_extra_in_files(rest, krate, f - 1);
    }
}

/// A member's artifact is a unit of the run, with the extra file name that the
/// first file named for its crate has: `lib`, the target's name with a `_` for
/// every `-`, the extra file name, which is nothing or starts with a `-`, and
/// behind a `.` any ending.
pub proof fn a_library_of_a_member_is_a_unit(
    message: CargoMessageView,
    members: Seq<Seq<char>>,
    krate: Seq<char>,
    dir: Seq<char>,
    extra: Seq<char>,
    ending: Seq<char>,
    f: int,
)
    requires
        message.reason == Some("compiler-artifact"@),
        message.package_id matches Some(id) && members.contains(id),
        message.kinds matches Some(kinds) && !kinds.contains(Some("custom-build"@)),
        message.src_path is Some,
        message.manifest_path is Some,
        message.test is Some,
        message.target_name matches Some(target) && krate.len() == target.len() && forall|i: int|
            0 <= i < target.len() ==> #[trigger] krate[i] == (if target[i] == '-' {
                '_'
            } else {
                target[i]
            }),
        !krate.contains('/'),
        !extra.contains('/'),
        !ending.contains('/'),
        !extra.contains('.'),
        extra.len() == 0 || extra[0] == '-',
        message.filenames matches Some(files) && 0 <= f < files.len() && files[f] == Some(
            joined_path(dir, "lib"@ + krate + extra.push('.') + ending),
        ) && forall|g: int| 0 <= g < f ==> is_of_another(#[trigger] files[g], krate),
    ensures
        unit_in(message, members) == Some(
            RunUnitView {
                unit: UnitView {
                    src: message.src_path->0,
                    canonical: message.src_path->0,
                    test: message.test->0,
                    extra_filename: extra,
                },
                package_id: message.package_id->0,
                manifest_path: message.manifest_path->0,
                target: message.target,
            },
        ),
        build_script_in(message, members) is None,
{
    let target = message.target_name->0;
    let files = message.filenames->0;
    a_crate_is_named_like_its_target(target);
    assert(crate_name(target) =~= krate);
    let name = "lib"@ + krate + extra.push('.') + ending;
    reveal_strlit("lib");
    reveal_strlit(".");
    reveal_strlit("..");
    assert(name[0] == 'l');
    assert(!name.contains('/')) by {
        if name.contains('/') {
            let i = choose|i: int| 0 <= i < name.len() && name[i] == '/';
            let a = ("lib"@ + krate).len() as int;
            let b = a + extra.len();
            if i < 3 {
                assert("lib"@[i] == '/');
            } else if i < a {
                assert(krate[i - 3] == '/');
            } else if i < b {
                assert(extra[i - a] == '/');
            } else if i > b {
                assert(ending[i - b - 1] == '/');
            }
        }
    }
    a_file_lies_in_the_directory_it_is_joined_to(dir, name);
    lemma_extra_behind("lib"@ + krate, extra, ending);
    assert(extra_in_file(files[f], krate) == Some(extra));
    lemma_extra_in_files(files, krate, f);
}

/// A message is a unit of the run only if it says that a member's artifact
/// was built, and the unit is of the package, the source, the manifest and the
/// target that the message names, and no build script.
pub proof fn a_unit_is_what_its_message_names(
    message: CargoMessageView,
    members: Seq<Seq<char>>,
)
    requires
        unit_in(message, members) is Some,
    ensures
        message.reason == Some("compiler-artifact"@),
        message.kinds matches Some(kinds) && !kinds.contains(Some("custom-build"@)),
        ({
            let unit = unit_in(message, members)->0;
            &&& members.contains(unit.package_id)
            &&& message.package_id == Some(unit.package_id)
            &&& message.manifest_path == Some(unit.manifest_path)
            &&& message.target == unit.target
            &&& message.src_path == Some(unit.unit.src)
            &&& message.test == Some(unit.unit.test)
            &&& unit.unit.canonical == unit.unit.src
            &&& unit.unit.extra_filename.len() > 0 ==> unit.unit.extra_filename[0] == '-'
            &&& !unit.unit.extra_filename.contains('.')
        }),
{
    let files = message.filenames->0;
    lemma_extra_shape(files, crate_name(message.target_name->0));
}

proof fn lemma_extra_shape(files: Seq<Option<Seq<char>>>, krate: Seq<char>)
    ensures
        extra_in_files(files, krate) matches Some(extra) ==> (extra.len() > 0 ==> extra[0] == '-')
            && !extra.contains('.'),
    decreases files.len(),
{
    if files.len() > 0 {
        lemma_extra_shape(files.skip(1), krate);
        if let Some(path) = files[0] {
            if let Some(name) = file_name(path) {
                lemma_cut(name.skip(("lib"@ + krate).len() as int), '.');
                lemma_cut(name.skip(krate.len() as int), '.');
            }
        }
    }
}

/// A member's artifact of the kind `custom-build` is a build script of the
/// run and no unit, whatever files it lists.
pub proof fn a_build_script_of_a_member_is_no_unit(
    message: CargoMessageView,
    members: Seq<Seq<char>>,
)
    requires
        message.reason == Some("compiler-artifact"@),
        message.package_id matches Some(id) && members.contains(id),
        message.kinds matches Some(kinds) && kinds.contains(Some("custom-build"@)),
        message.src_path is Some,
    ensures
        unit_in(message, members) is None,
        build_script_in(message, members) matches Some(script) && Some(script.src)
            == message.src_path && !script.test && script.extra_filename.len() == 0,
{
}

/// A member's binary is a unit of the run in the same way, with nothing in
/// front of the crate's name.
pub proof fn a_binary_of_a_member_is_a_unit(
    message: CargoMessageView,
    members: Seq<Seq<char>>,
    krate: Seq<char>,
    dir: Seq<char>,
    extra: Seq<char>,
    ending: Seq<char>,
    f: int,
)
    requires
        message.reason == Some("compiler-artifact"@),
        message.package_id matches Some(id) && members.contains(id),
        message.kinds matches Some(kinds) && !kinds.contains(Some("custom-build"@)),
        message.src_path is Some,
        message.manifest_path is Some,
        message.test is Some,
        message.target_name matches Some(target) && krate.len() == target.len() && forall|i: int|
            0 <= i < target.len() ==> #[trigger] krate[i] == (if target[i] == '-' {
                '_'
            } else {
                target[i]
            }),
        krate.len() > 0,
        !starts_with(krate, "lib"@),
        !krate.contains('/'),
        !krate.contains('.'),
        !extra.contains('/'),
        !ending.contains('/'),
        !extra.contains('.'),
        extra.len() == 0 || extra[0] == '-',
        message.filenames matches Some(files) && 0 <= f < files.len() && files[f] == Some(
            joined_path(dir, krate + extra.push('.') + ending),
        ) && forall|g: int| 0 <= g < f ==> is_of_another(#[trigger] files[g], krate),
    ensures
        unit_in(message, members) matches Some(unit) && unit.unit.extra_filename == extra
            && Some(unit.unit.src) == message.src_path && Some(unit.unit.test) == message.test
            && Some(unit.package_id) == message.package_id,
{
    let target = message.target_name->0;
    let files = message.filenames->0;
    a_crate_is_named_like_its_target(target);
    assert(crate_name(target) =~= krate);
    let name = krate + extra.push('.') + ending;
    reveal_strlit("lib");
    reveal_strlit(".");
    reveal_strlit("..");
    assert(name[0] == krate[0]);
    assert(krate.contains(krate[0]));
    assert(!name.contains('/')) by {
        if name.contains('/') {
            let i = choose|i: int| 0 <= i < name.len() && name[i] == '/';
            let a = krate.len() as int;
            let b = a + extra.len();
            if i < a {
                assert(krate[i] == '/');
            } else if i < b {
                assert(extra[i - a] == '/');
            } else if i > b {
                assert(ending[i - b - 1] == '/');
            }
        }
    }
    assert(name != "."@ && name != ".."@);
    a_file_lies_in_the_directory_it_is_joined_to(dir, name);
    lemma_extra_behind(krate, extra, ending);
    let long = "lib"@ + krate;
    if starts_with(name, long) {
        assert(name.take(long.len() as int)[0] == 'l' && name.take(long.len() as int)[1] == 'i'
            && name.take(long.len() as int)[2] == 'b');
        assert(name[0] == 'l' && name[1] == 'i' && name[2] == 'b');
        if krate.len() >= 3 {
            assert(krate.take(3) =~= "lib"@);
        } else if extra.len() > 0 {
            assert(name[krate.len() as int] == '-');
        } else {
            assert(name[krate.len() as int] == '.');
        }
    }
    assert(extra_behind(name, long) is None);
    assert(extra_in_file(files[f], krate) == Some(extra));
    lemma_extra_in_files(files, krate, f);
}

/// A line adds to the run what it names and takes nothing away: the units and
/// build scripts there were stay, in their order, and at most one of each
/// comes behind them. Only cargo's closing message is kept as that.
pub proof fn a_line_only_adds_to_the_run(
    run: RunView,
    line: Seq<char>,
    message: Option<CargoMessageView>,
    members: Seq<Seq<char>>,
)
    ensures
        ({
            let after = after_line(run, line, message, members);
            &&& run.units.is_prefix_of(after.units)
            &&& run.build_scripts.is_prefix_of(after.build_scripts)
            &&& after.units.len() <= run.units.len() + 1
            &&& after.build_scripts.len() <= run.build_scripts.len() + 1
            &&& message is None ==> after == run
            &&& message matches Some(said) ==> {
                &&& unit_in(said, members) matches Some(unit) ==> after.units == run.units.push(
                    unit,
                )
                &&& unit_in(said, members) is None ==> after.units == run.units
                &&& build_script_in(said, members) matches Some(script) ==> after.build_scripts
                    == run.build_scripts.push(script)
                &&& build_script_in(said, members) is None ==> after.build_scripts
                    == run.build_scripts
                &&& said.reason == Some("build-finished"@) ==> after.finished == Some(line)
                &&& said.reason != Some("build-finished"@) ==> after.finished == run.finished
            }
        }),
{
    reveal_strlit("compiler-artifact");
    reveal_strlit("build-finished");
    assert("compiler-artifact"@.len() != "build-finished"@.len());
}

} // verus!
