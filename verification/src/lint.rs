//! Finds `pub` items that no crate in the workspace uses: what one
//! compilation takes of the facts that the compiler tells it, and what it
//! reports or records once the crate is checked.

use std::collections::HashSet;

use vstd::prelude::*;
use vstd::string::*;

use crate::judge::lemma_filtered;
use crate::records::{
    all_def_keys, crate_name_of, crate_of, def_views, defines_key, defs_of_text, defs_text,
    note_views, position, position_key, refs_text, write_defs, write_refs, Def, DefView, DefsView,
    Note, NoteView, Unit, UnitView,
};
use crate::sets::{increasing, TextSet};
use crate::text::{chars_of, has_prefix, opt_view, same, starts_with, views};
use crate::unused_pub::LINT;

verus! {

/// The lint's name as the command line spells it.
pub const HYPHENATED: &'static str = "unused-pub";

/// What an item of the language is, as far as the lint tells them apart.
#[derive(Clone, Copy, PartialEq, Eq, Structural)]
pub enum ItemKind {
    Fn,
    Struct,
    Enum,
    Union,
    Const,
    Static,
    TyAlias,
    Trait,
    Impl,
    Mod,
    AssocFn,
    AssocConst,
    AssocTy,
    Variant,
    Ctor,
    Other,
}

/// Whether an item of a module is checked.
pub fn is_checked_item(kind: ItemKind) -> (r: bool)
    ensures
        r == (kind == ItemKind::Fn || kind == ItemKind::Struct || kind == ItemKind::Enum || kind
            == ItemKind::Union || kind == ItemKind::Const || kind == ItemKind::Static || kind
            == ItemKind::TyAlias || kind == ItemKind::Trait),
{
    match kind {
        ItemKind::Fn | ItemKind::Struct | ItemKind::Enum | ItemKind::Union | ItemKind::Const
        | ItemKind::Static | ItemKind::TyAlias | ItemKind::Trait => true,
        _ => false,
    }
}

/// Whether an item of a trait is checked.
pub fn is_checked_trait_item(kind: ItemKind) -> (r: bool)
    ensures
        r == (kind == ItemKind::AssocFn || kind == ItemKind::AssocConst),
{
    match kind {
        ItemKind::AssocFn | ItemKind::AssocConst => true,
        _ => false,
    }
}

/// Whether an item of an `impl` block is checked: only one of a block that is
/// not of a trait.
pub fn is_checked_impl_item(kind: ItemKind, of_trait: bool) -> (r: bool)
    ensures
        r == ((kind == ItemKind::AssocFn || kind == ItemKind::AssocConst) && !of_trait),
{
    is_checked_trait_item(kind) && !of_trait
}

/// Crate name plus definition path: `bun_core::fmt::raw`,
/// `bun_css::{impl#3}::eql`. The same text whichever crate computes it. An
/// item of a binary carries `[bin]` after the crate name: a package's library
/// and binary are often both the crate `tool`, and nothing outside the binary
/// can name its items.
pub open spec fn key_of(krate: Seq<char>, in_binary: bool, path: Seq<char>) -> Seq<char> {
    krate + (if in_binary {
        "[bin]"@
    } else {
        ""@
    }) + path
}

/// The key of an item: `krate` is its crate, `in_binary` whether that is a
/// binary compiled now, and `path` its definition path behind the crate.
pub fn key(krate: &str, in_binary: bool, path: &str) -> (text: String)
    ensures
        text@ == key_of(krate@, in_binary, path@),
{
    let bin = if in_binary {
        "[bin]"
    } else {
        ""
    };
    krate.to_owned().concat(bin).concat(path)
}

/// Where a span starts and ends in its file, if that is a real file: `path`
/// is the file's, `start` where it starts among all the sources, and `lo` and
/// `hi` where the span does.
pub fn locate(path: Option<&str>, start: u32, lo: u32, hi: u32) -> (place: Option<
    (String, u32, u32),
>)
    requires
        start <= lo,
        start <= hi,
    ensures
        match (path, place) {
            (Some(path), Some((file, from, to))) => file@ == path@ && from == lo - start && to
                == hi - start,
            (None, None) => true,
            _ => false,
        },
{
    match path {
        Some(path) => Some((path.to_owned(), lo - start, hi - start)),
        None => None,
    }
}

/// The item a use counts for, by its place in `kinds`, which are those of the
/// item named and of each item around it: a constructor or variant counts as
/// its struct or enum.
pub open spec fn owner_among(kinds: Seq<ItemKind>) -> int
    decreases kinds.len(),
{
    if kinds.len() <= 1 {
        0
    } else if kinds[0] == ItemKind::Ctor {
        1 + owner_among(kinds.skip(1))
    } else if kinds[0] == ItemKind::Variant {
        1
    } else {
        0
    }
}

/// The item a use counts for, by its place in `kinds`.
pub fn owning_item(kinds: &Vec<ItemKind>) -> (at: usize)
    ensures
        at == owner_among(kinds@),
        kinds@.len() > 0 ==> at < kinds@.len(),
{
    let mut at: usize = 0;
    assert(kinds@.skip(0) =~= kinds@);
    while kinds.len() - at > 1 && kinds[at] == ItemKind::Ctor
        invariant
            at <= kinds@.len(),
            kinds@.len() > 0 ==> at < kinds@.len(),
            owner_among(kinds@) == at + owner_among(kinds@.skip(at as int)),
        decreases kinds@.len() - at,
    {
        assert(kinds@.skip(at as int).skip(1) =~= kinds@.skip(at + 1));
        at = at + 1;
    }
    if kinds.len() - at > 1 && kinds[at] == ItemKind::Variant {
        at + 1
    } else {
        at
    }
}

/// The trait or, for an inherent impl, the type an associated item belongs
/// to, given the kind of the item and of its parent, the parent's key, and the
/// key of the type that the parent is an impl of.
pub open spec fn parent_among(
    kind: ItemKind,
    parent: ItemKind,
    parent_key: Seq<char>,
    type_key: Option<Seq<char>>,
) -> Option<Seq<char>> {
    if kind != ItemKind::AssocFn && kind != ItemKind::AssocConst {
        None
    } else if parent == ItemKind::Trait {
        Some(parent_key)
    } else if parent == ItemKind::Impl {
        type_key
    } else {
        None
    }
}

/// The key of the trait or the type an associated item belongs to.
pub fn parent_key(
    kind: ItemKind,
    parent: ItemKind,
    own_key: &str,
    type_key: Option<&str>,
) -> (found: Option<String>)
    ensures
        opt_view(found) == parent_among(
            kind,
            parent,
            own_key@,
            match type_key {
                Some(key) => Some(key@),
                None => None,
            },
        ),
{
    match (kind, parent, type_key) {
        (ItemKind::AssocFn | ItemKind::AssocConst, ItemKind::Trait, _) => {
            Some(own_key.to_owned())
        },
        (ItemKind::AssocFn | ItemKind::AssocConst, ItemKind::Impl, Some(key)) => {
            Some(key.to_owned())
        },
        _ => None,
    }
}

/// Which item around a use is the `impl` block it is written in: the owner
/// itself, its parent, or none.
#[derive(Clone, Copy, PartialEq, Eq, Structural)]
pub enum Around {
    Owner,
    Parent,
    Nothing,
}

/// The `impl` block a use is written in, given the kind of the use's owner
/// and of the owner's parent.
pub fn enclosing_impl(owner: ItemKind, parent: ItemKind) -> (around: Around)
    ensures
        around == if owner == ItemKind::Impl {
            Around::Owner
        } else if (owner == ItemKind::AssocFn || owner == ItemKind::AssocConst || owner
            == ItemKind::AssocTy) && parent == ItemKind::Impl {
            Around::Parent
        } else {
            Around::Nothing
        },
{
    match (owner, parent) {
        (ItemKind::Impl, _) => Around::Owner,
        (ItemKind::AssocFn | ItemKind::AssocConst | ItemKind::AssocTy, ItemKind::Impl) => {
            Around::Parent
        },
        _ => Around::Nothing,
    }
}

/// Whether a resolved path is a use.
pub open spec fn counts_as_use(
    alias: bool,
    impl_self_type: bool,
    derived: bool,
    of_own_type: bool,
) -> bool {
    if derived && of_own_type {
        false
    } else if impl_self_type {
        alias
    } else {
        true
    }
}

/// Whether a resolved path is a use. The self type of an `impl` block is none,
/// unless it is an alias: the impl is of the type the alias names. Nor is what
/// `#[derive]` on a type writes of that type.
pub fn path_is_use(alias: bool, impl_self_type: bool, derived: bool, of_own_type: bool) -> (r: bool)
    ensures
        r == ((alias || !impl_self_type) && !(derived && of_own_type)),
        r == counts_as_use(alias, impl_self_type, derived, of_own_type),
{
    (alias || !impl_self_type) && !(derived && of_own_type)
}

/// What is around an item: the crate or a module, with the file its body is
/// in, and for a module the file it is declared in, or something else.
#[derive(Clone, Copy, PartialEq, Eq, Structural)]
pub enum Enclosing {
    Crate { body: u32 },
    Module { body: u32, declared: u32 },
    Other,
}

/// In a different file from the module body around it: brought in by the
/// macro that puts one file into another, which is how generated code enters a
/// crate, and an unused item there is the generator's to drop. An out-of-line
/// `mod m;` also changes file, but then the module body and its items agree.
pub open spec fn brought_in(file: u32, around: Seq<Enclosing>) -> bool
    decreases around.len(),
{
    if around.len() == 0 {
        false
    } else {
        match around[0] {
            Enclosing::Crate { body } => file != body,
            Enclosing::Module { body, declared } => file != body || brought_in(
                declared,
                around.skip(1),
            ),
            Enclosing::Other => false,
        }
    }
}

/// Whether an item in `file` is in a different file from the module body
/// around it, at some level up to the crate root.
pub fn included(file: u32, around: &Vec<Enclosing>) -> (r: bool)
    ensures
        r == brought_in(file, around@),
{
    let mut from: u32 = file;
    let mut i: usize = 0;
    assert(around@.skip(0) =~= around@);
    while i < around.len()
        invariant
            i <= around@.len(),
            brought_in(file, around@) == brought_in(from, around@.skip(i as int)),
        decreases around@.len() - i,
    {
        assert(around@.skip(i as int).skip(1) =~= around@.skip(i + 1));
        match around[i] {
            Enclosing::Crate { body } => {
                return from != body;
            },
            Enclosing::Module { body, declared } => {
                if from != body {
                    return true;
                }
                from = declared;
            },
            Enclosing::Other => {
                return false;
            },
        }
        i = i + 1;
    }
    false
}

/// Whether an item is used by what the lint does not see.
pub open spec fn is_exempt(
    kind: ItemKind,
    by_symbol: bool,
    lang_item: bool,
    entry: bool,
) -> bool {
    if lang_item || entry {
        true
    } else {
        match kind {
            ItemKind::Fn | ItemKind::AssocFn | ItemKind::Static => by_symbol,
            _ => false,
        }
    }
}

/// Whether an item is reached by symbol name from outside the language,
/// required by the language, or the program's entry point.
pub fn exempt(kind: ItemKind, by_symbol: bool, lang_item: bool, entry: bool) -> (r: bool)
    ensures
        r == ((kind == ItemKind::Fn || kind == ItemKind::AssocFn || kind == ItemKind::Static)
            && by_symbol || lang_item || entry),
        r == is_exempt(kind, by_symbol, lang_item, entry),
{
    let reached = match kind {
        ItemKind::Fn | ItemKind::AssocFn | ItemKind::Static => by_symbol,
        _ => false,
    };
    reached || lang_item || entry
}

/// Where the lint's level at an item comes from.
pub enum LevelSource {
    Default,
    /// The value of a flag on the command line, and the flag.
    CommandLine { value: String, flag: String },
    /// An attribute: what it names, and where it is.
    Node { attr: String, at: Option<(String, u32, u32)> },
}

/// What a [`LevelSource`] is.
pub enum LevelSourceView {
    Default,
    CommandLine { value: Seq<char>, flag: Seq<char> },
    Node { attr: Seq<char>, at: Option<(Seq<char>, u32, u32)> },
}

impl View for LevelSource {
    type V = LevelSourceView;

    open spec fn view(&self) -> LevelSourceView {
        match self {
            LevelSource::Default => LevelSourceView::Default,
            LevelSource::CommandLine { value, flag } => LevelSourceView::CommandLine {
                value: value@,
                flag: flag@,
            },
            LevelSource::Node { attr, at } => LevelSourceView::Node {
                attr: attr@,
                at: match at {
                    Some((file, lo, hi)) => Some((file@, *lo, *hi)),
                    None => None,
                },
            },
        }
    }
}

/// A text with `-` in place of `_`.
pub open spec fn hyphenated(s: Seq<char>) -> Seq<char> {
    s.map_values(
        |c: char|
            if c == '_' {
                '-'
            } else {
                c
            },
    )
}

fn with_hyphens(s: &str) -> (out: String)
    ensures
        out@ == hyphenated(s@),
{
    let chars = chars_of(s);
    let mut out = String::new();
    let mut i: usize = 0;
    assert(out@ =~= hyphenated(s@).take(0));
    while i < chars.len()
        invariant
            chars@ == s@,
            i <= chars@.len(),
            out@ == hyphenated(s@).take(i as int),
        decreases chars@.len() - i,
    {
        let ghost before = out@;
        if chars[i] == '_' {
            proof {
                reveal_strlit("-");
            }
            out.append("-");
        } else {
            assert(s@.subrange(i as int, i + 1) =~= seq![s@[i as int]]);
            out.append(s.substring_char(i, i + 1));
        }
        assert(out@ =~= before.push(hyphenated(s@)[i as int]));
        assert(hyphenated(s@).take(i + 1) =~= before.push(hyphenated(s@)[i as int]));
        i = i + 1;
    }
    assert(hyphenated(s@).take(i as int) =~= hyphenated(s@));
    out
}

pub open spec fn bare_note(help: bool, message: Seq<char>) -> NoteView {
    NoteView { help, message, at: None }
}

/// The words that the compiler puts under a lint about where its level comes
/// from.
pub open spec fn level_notes(level: Seq<char>, source: LevelSourceView) -> Seq<NoteView> {
    match source {
        LevelSourceView::Default => seq![
            bare_note(false, "`#["@ + level + "("@ + LINT@ + ")]` on by default"@),
        ],
        LevelSourceView::CommandLine { value, flag } => if value == LINT@ {
            seq![
                bare_note(
                    false,
                    "requested on the command line with `"@ + flag + " "@ + HYPHENATED@ + "`"@,
                ),
            ]
        } else {
            let group = flag + " "@ + hyphenated(value);
            seq![
                bare_note(
                    false,
                    "`"@ + flag + " "@ + HYPHENATED@ + "` implied by `"@ + group + "`"@,
                ),
                bare_note(
                    true,
                    "to override `"@ + group + "` add `#[allow("@ + LINT@ + ")]`"@,
                ),
            ]
        },
        LevelSourceView::Node { attr, at } => {
            let here = NoteView { help: false, message: "the lint level is defined here"@, at };
            if attr == LINT@ {
                seq![here]
            } else {
                seq![
                    here,
                    bare_note(
                        false,
                        "`#["@ + level + "("@ + LINT@ + ")]` implied by `#["@ + level + "("@ + attr
                            + ")]`"@,
                    ),
                ]
            }
        },
    }
}

fn note(help: bool, message: String) -> (note: Note)
    ensures
        note@ == bare_note(help, message@),
{
    Note { help, message, at: None }
}

/// Where the lint's level at an item comes from, in the words the compiler
/// puts under a lint, for a finding to print under itself.
pub fn level_source(level: &str, source: &LevelSource) -> (notes: Vec<Note>)
    ensures
        note_views(notes@) == level_notes(level@, source@),
{
    let mut notes: Vec<Note> = Vec::new();
    match source {
        LevelSource::Default => {
            let message = "`#[".to_owned().concat(level).concat("(").concat(LINT).concat(
                ")]` on by default",
            );
            notes.push(note(false, message));
        },
        LevelSource::CommandLine { value, flag } => {
            if same(value.as_str(), LINT) {
                let message = "requested on the command line with `".to_owned().concat(
                    flag.as_str(),
                ).concat(" ").concat(HYPHENATED).concat("`");
                notes.push(note(false, message));
            } else {
                let group = flag.clone().concat(" ").concat(with_hyphens(value.as_str()).as_str());
                let implied = "`".to_owned().concat(flag.as_str()).concat(" ").concat(
                    HYPHENATED,
                ).concat("` implied by `").concat(group.as_str()).concat("`");
                let advice = "to override `".to_owned().concat(group.as_str()).concat(
                    "` add `#[allow(",
                ).concat(LINT).concat(")]`");
                notes.push(note(false, implied));
                notes.push(note(true, advice));
            }
        },
        LevelSource::Node { attr, at } => {
            let at = match at {
                Some((file, lo, hi)) => Some((file.clone(), *lo, *hi)),
                None => None,
            };
            let here = Note {
                help: false,
                message: "the lint level is defined here".to_owned(),
                at,
            };
            notes.push(here);
            if !same(attr.as_str(), LINT) {
                let implied = "`#[".to_owned().concat(level).concat("(").concat(LINT).concat(
                    ")]` implied by `#[",
                ).concat(level).concat("(").concat(attr.as_str()).concat(")]`");
                notes.push(note(false, implied));
            }
        },
    }
    assert(note_views(notes@) =~= level_notes(level@, source@));
    notes
}

/// How a compilation takes part.
pub enum Mode {
    /// On its own, or a build script, which nothing else can name: the
    /// crate's items are judged against its own uses.
    Alone,
    /// In a run: this unit's records go into `dir`, and are judged once the
    /// run is built.
    Record { dir: String, unit: Unit },
}

/// What a [`Mode`] is.
pub enum ModeView {
    Alone,
    Record { dir: Seq<char>, unit: UnitView },
}

impl View for Mode {
    type V = ModeView;

    open spec fn view(&self) -> ModeView {
        match self {
            Mode::Alone => ModeView::Alone,
            Mode::Record { dir, unit } => ModeView::Record { dir: dir@, unit: unit@ },
        }
    }
}

/// The baseline section that a crate's findings belong to: the crate's name,
/// and for a binary, which is often named like its library, that of its target
/// too.
pub fn section_name(krate: &str, binary: Option<&str>) -> (section: String)
    ensures
        section@ == match binary {
            Some(binary) => krate@ + " (bin "@ + binary@ + ")"@,
            None => krate@,
        },
{
    match binary {
        Some(binary) => krate.to_owned().concat(" (bin ").concat(binary).concat(")"),
        None => krate.to_owned(),
    }
}

/// Whether a compilation records what it defines and uses.
pub open spec fn records_its_part(in_a_run: bool, krate: Seq<char>, has_unit: bool) -> bool {
    in_a_run && has_unit && krate != "build_script_build"@
}

/// How this compilation takes part: `facts` is the directory of the run's
/// records, if there is one, `krate` the crate's name, and `unit` the
/// compilation's unit, if its crate root is a file.
pub fn mode(facts: Option<String>, krate: &str, unit: Option<Unit>) -> (mode: Mode)
    ensures
        mode@ == match (facts, unit) {
            (Some(dir), Some(unit)) => if krate@ == "build_script_build"@ {
                ModeView::Alone
            } else {
                ModeView::Record { dir: dir@, unit: unit@ }
            },
            _ => ModeView::Alone,
        },
        mode@ is Record <==> records_its_part(facts is Some, krate@, unit is Some),
{
    match (facts, unit) {
        (Some(dir), Some(unit)) => if same(krate, "build_script_build") {
            Mode::Alone
        } else {
            Mode::Record { dir, unit }
        },
        _ => Mode::Alone,
    }
}

/// The unit that a compilation's count of findings over the baseline is
/// written under. The files that cargo lists of a build script do not show its
/// extra file name, so its count is found without one.
pub open spec fn counted_as(unit: UnitView, krate: Seq<char>) -> UnitView {
    if krate == "build_script_build"@ {
        UnitView { extra_filename: Seq::empty(), ..unit }
    } else {
        unit
    }
}

/// The unit that a compilation's count of findings over the baseline is
/// written under.
pub fn counted_unit(unit: Unit, krate: &str) -> (out: Unit)
    ensures
        out@ == counted_as(unit@, krate@),
{
    if same(krate, "build_script_build") {
        let out = Unit { extra_filename: String::new(), ..unit };
        assert(out@.extra_filename =~= Seq::<char>::empty());
        out
    } else {
        unit
    }
}

/// What the compiler says of an item that is checked.
pub struct Item {
    pub id: u64,
    pub from_expansion: bool,
    pub reachable: bool,
    pub exempt: bool,
    pub included: bool,
    /// Whether the lint is allowed or expected at the item.
    pub silent: bool,
    /// Whether it is an expectation that is fulfilled then.
    pub expectation: bool,
    pub level: String,
    pub source: LevelSource,
    /// Where its name is: the file, and where in it that starts and ends.
    pub place: Option<(String, u32, u32)>,
    pub key: String,
    pub krate: String,
    pub path: String,
    pub descr: String,
    pub parent: Option<String>,
}

/// `path` with the crate in front, unless it is there.
pub open spec fn qualified(krate: Seq<char>, path: Seq<char>) -> Seq<char> {
    if starts_with(path, krate + "::"@) {
        path
    } else {
        krate + "::"@ + path
    }
}

/// An item as it is recorded, with its name at `place`.
pub open spec fn described(item: &Item, place: (Seq<char>, u32, u32)) -> DefView {
    DefView {
        key: item.key@,
        file: place.0,
        lo: place.1,
        hi: place.2,
        descr: item.descr@,
        path: qualified(item.krate@, item.path@),
        parent: match item.parent {
            Some(parent) => parent@,
            None => Seq::empty(),
        },
        level: item.level@,
        notes: level_notes(item.level@, item.source@),
    }
}

/// What became of an item.
#[derive(Clone, Copy, PartialEq, Eq, Structural)]
pub enum Recording {
    /// Not reported whatever uses it.
    Skipped,
    /// Not reported, and the expectation at it is fulfilled.
    Expected,
    Recorded,
}

/// What becomes of an item.
pub open spec fn recording(item: &Item, is_test: bool) -> Recording {
    if is_test || item.from_expansion || !item.reachable || item.exempt || item.included {
        Recording::Skipped
    } else if item.silent {
        if item.expectation {
            Recording::Expected
        } else {
            Recording::Skipped
        }
    } else if item.place is None {
        Recording::Skipped
    } else {
        Recording::Recorded
    }
}

/// A use that a compilation sees.
pub enum Use {
    /// An item naming itself.
    Own,
    /// An item of this crate, by its id: whether it can be reached from
    /// outside, its key, and where its name is.
    Local { id: u64, reachable: bool, key: String, place: Option<(String, u32, u32)> },
    /// An item of another crate, by the crate's name and the item's key.
    Foreign { krate: String, key: String },
}

/// What a use of an item of the crate's own is recorded as, if it is: the
/// position that the item is recorded at.
pub open spec fn own_position(
    reachable: bool,
    key: Seq<char>,
    place: Option<(String, u32, u32)>,
) -> Option<Seq<char>> {
    match place {
        Some((file, lo, _)) => if reachable {
            Some(position(crate_of(key), file@, lo as nat))
        } else {
            None
        },
        None => None,
    }
}

/// The lint over one compilation.
pub struct UnusedPub {
    mode: Mode,
    /// Built as a test harness: its uses count, but its items are the ones
    /// the crate's own build records, or only exist for the tests.
    is_test: bool,
    is_proc_macro: bool,
    /// This crate's reachable `pub` items, with their id.
    defs: Vec<(u64, Def)>,
    local_refs: HashSet<u64>,
    /// Position keys of the crate's own items that it uses.
    own_refs: TextSet,
    /// Keys of workspace items other crates define and this crate uses.
    foreign_refs: TextSet,
    /// Keys listed by the records present when this crate started: every
    /// library it depends on has finished by then.
    known: TextSet,
    /// The crates those keys belong to, to skip the rest cheaply.
    known_crates: TextSet,
}

/// What an [`UnusedPub`] holds.
#[verifier::ext_equal]
pub struct UnusedPubView {
    pub mode: ModeView,
    pub is_test: bool,
    pub is_proc_macro: bool,
    pub defs: Seq<(u64, DefView)>,
    pub local_refs: Set<u64>,
    pub own_refs: Set<Seq<char>>,
    pub foreign_refs: Set<Seq<char>>,
    pub known: Set<Seq<char>>,
    pub known_crates: Set<Seq<char>>,
}

/// The texts of a set.
pub open spec fn texts_in(set: TextSet) -> Set<Seq<char>> {
    Set::new(|text: Seq<char>| set.contains(text))
}

/// What items with their ids say.
pub open spec fn item_views(defs: Seq<(u64, Def)>) -> Seq<(u64, DefView)> {
    defs.map_values(|def: (u64, Def)| (def.0, def.1@))
}

impl View for UnusedPub {
    type V = UnusedPubView;

    closed spec fn view(&self) -> UnusedPubView {
        UnusedPubView {
            mode: self.mode@,
            is_test: self.is_test,
            is_proc_macro: self.is_proc_macro,
            defs: item_views(self.defs@),
            local_refs: self.local_refs@,
            own_refs: texts_in(self.own_refs),
            foreign_refs: texts_in(self.foreign_refs),
            known: texts_in(self.known),
            known_crates: texts_in(self.known_crates),
        }
    }
}

/// The keys that the records of a run define.
pub open spec fn keys_in(records: Seq<Seq<char>>) -> Set<Seq<char>> {
    Set::new(|key: Seq<char>| defines_key(records, key))
}

/// The crates of keys.
pub open spec fn crates_of(keys: Set<Seq<char>>) -> Set<Seq<char>> {
    Set::new(
        |krate: Seq<char>|
            exists|key: Seq<char>| #[trigger] keys.contains(key) && crate_of(key) == krate,
    )
}

/// The items that no use of was seen.
pub open spec fn not_used(refs: Set<u64>) -> spec_fn((u64, DefView)) -> bool {
    |def: (u64, DefView)| !refs.contains(def.0)
}

/// Whether `key` is the key of one of the items.
pub open spec fn is_key_of(defs: Seq<(u64, DefView)>, key: Seq<char>) -> bool {
    exists|k: int| 0 <= k < defs.len() && (#[trigger] defs[k]).1.key == key
}

pub open spec fn not_under(defs: Seq<(u64, DefView)>) -> spec_fn((u64, DefView)) -> bool {
    |def: (u64, DefView)| !is_key_of(defs, def.1.parent)
}

/// The items that a crate judged alone reports: those not used, but for those
/// of a type or trait that is itself unused.
pub open spec fn reported_alone(defs: Seq<(u64, DefView)>, refs: Set<u64>) -> Seq<
    (u64, DefView),
> {
    let unused = defs.filter(not_used(refs));
    unused.filter(not_under(unused))
}

/// What a compilation holds behind an item that is checked.
pub open spec fn after_item(pass: UnusedPubView, item: &Item) -> UnusedPubView {
    if recording(item, pass.is_test) == Recording::Recorded {
        let (file, lo, hi) = item.place->0;
        UnusedPubView {
            defs: pass.defs.push((item.id, described(item, (file@, lo, hi)))),
            ..pass
        }
    } else {
        pass
    }
}

/// What a compilation holds behind a use.
pub open spec fn after_use(pass: UnusedPubView, used: &Use) -> UnusedPubView {
    match used {
        Use::Own => pass,
        Use::Local { id, reachable, key, place } => UnusedPubView {
            local_refs: pass.local_refs.insert(*id),
            own_refs: match own_position(*reachable, key@, *place) {
                Some(position) => pass.own_refs.insert(position),
                None => pass.own_refs,
            },
            ..pass
        },
        Use::Foreign { krate, key } => if pass.mode is Record && pass.known_crates.contains(krate@)
            && pass.known.contains(key@) {
            UnusedPubView { foreign_refs: pass.foreign_refs.insert(key@), ..pass }
        } else {
            pass
        },
    }
}

/// What a compilation records as used.
pub open spec fn recorded_uses(pass: UnusedPubView) -> Set<Seq<char>> {
    pass.own_refs.union(pass.foreign_refs)
}

/// Whether a compilation records the items it defines.
pub open spec fn records_items(pass: UnusedPubView) -> bool {
    !(pass.is_test || pass.is_proc_macro)
}

/// What a compilation does once its crate is checked.
pub enum Post {
    /// A test harness that is judged alone reports nothing.
    Nothing,
    /// The items to report.
    Report(Vec<(u64, Def)>),
    /// The records to write: the path and the text of each.
    Write { refs: (String, String), defs: Option<(String, String)> },
}

impl UnusedPub {
    pub closed spec fn wf(&self) -> bool {
        &&& self.own_refs.wf()
        &&& self.foreign_refs.wf()
        &&& self.known.wf()
        &&& self.known_crates.wf()
    }

    pub fn new() -> (pass: UnusedPub)
        ensures
            pass.wf(),
            pass@ == (UnusedPubView {
                mode: ModeView::Alone,
                is_test: false,
                is_proc_macro: false,
                defs: Seq::empty(),
                local_refs: Set::empty(),
                own_refs: Set::empty(),
                foreign_refs: Set::empty(),
                known: Set::empty(),
                known_crates: Set::empty(),
            }),
    {
        let pass = UnusedPub {
            mode: Mode::Alone,
            is_test: false,
            is_proc_macro: false,
            defs: Vec::new(),
            local_refs: HashSet::new(),
            own_refs: TextSet::new(),
            foreign_refs: TextSet::new(),
            known: TextSet::new(),
            known_crates: TextSet::new(),
        };
        assert(pass@ =~= UnusedPubView {
            mode: ModeView::Alone,
            is_test: false,
            is_proc_macro: false,
            defs: Seq::empty(),
            local_refs: Set::empty(),
            own_refs: Set::empty(),
            foreign_refs: Set::empty(),
            known: Set::empty(),
            known_crates: Set::empty(),
        });
        pass
    }

    /// The crate starts. `records` are the texts of the `.defs` files that
    /// are there now.
    pub fn check_crate(
        &mut self,
        is_test: bool,
        is_proc_macro: bool,
        mode: Mode,
        records: &Vec<String>,
    )
        requires
            old(self).wf(),
        ensures
            final(self).wf(),
            final(self)@ == (UnusedPubView {
                mode: mode@,
                is_test,
                is_proc_macro,
                known: if mode@ is Record {
                    keys_in(views(records@))
                } else {
                    old(self)@.known
                },
                known_crates: if mode@ is Record {
                    crates_of(keys_in(views(records@)))
                } else {
                    old(self)@.known_crates
                },
                ..old(self)@
            }),
    {
        let ghost before = self@;
        self.is_test = is_test;
        self.is_proc_macro = is_proc_macro;
        let record = match &mode {
            Mode::Record { .. } => true,
            Mode::Alone => false,
        };
        self.mode = mode;
        if record {
            let known = all_def_keys(records);
            let crates = crates_among(&known);
            assert(texts_in(known) =~= keys_in(views(records@)));
            proof {
                let keys = keys_in(views(records@));
                assert forall|c: Seq<char>| #[trigger]
                    texts_in(crates).contains(c) == crates_of(keys).contains(c) by {
                    if crates.contains(c) {
                        let k = choose|k: Seq<char>| #[trigger]
                            known.contains(k) && crate_of(k) == c;
                        assert(keys.contains(k));
                    }
                    if crates_of(keys).contains(c) {
                        let k = choose|k: Seq<char>| #[trigger]
                            keys.contains(k) && crate_of(k) == c;
                        assert(known.contains(k));
                    }
                }
                assert(texts_in(crates) =~= crates_of(keys));
            }
            self.known = known;
            self.known_crates = crates;
        }
        assert(self@.defs =~= before.defs);
    }

    /// An item that is checked.
    pub fn record_def(&mut self, item: &Item) -> (what: Recording)
        requires
            old(self).wf(),
        ensures
            final(self).wf(),
            what == recording(item, old(self)@.is_test),
            final(self)@ == (UnusedPubView {
                defs: match (what, item.place) {
                    (Recording::Recorded, Some((file, lo, hi))) => old(self)@.defs.push(
                        (item.id, described(item, (file@, lo, hi))),
                    ),
                    _ => old(self)@.defs,
                },
                ..old(self)@
            }),
            final(self)@ == after_item(old(self)@, item),
    {
        let ghost before = self@;
        if self.is_test || item.from_expansion || !item.reachable || item.exempt || item.included {
            return Recording::Skipped;
        }
        if item.silent {
            return if item.expectation {
                Recording::Expected
            } else {
                Recording::Skipped
            };
        }
        match &item.place {
            None => Recording::Skipped,
            Some((file, lo, hi)) => {
                let prefix = item.krate.clone().concat("::");
                let path = if has_prefix(item.path.as_str(), prefix.as_str()) {
                    item.path.clone()
                } else {
                    prefix.concat(item.path.as_str())
                };
                let def = Def {
                    key: item.key.clone(),
                    file: file.clone(),
                    lo: *lo,
                    hi: *hi,
                    descr: item.descr.clone(),
                    path,
                    parent: match &item.parent {
                        Some(parent) => parent.clone(),
                        None => String::new(),
                    },
                    level: item.level.clone(),
                    notes: level_source(item.level.as_str(), &item.source),
                };
                assert(def@.parent =~= described(item, (file@, *lo, *hi)).parent);
                self.defs.push((item.id, def));
                assert(self@.defs =~= before.defs.push((item.id, def@)));
                Recording::Recorded
            },
        }
    }

    /// Whether a use of a foreign item is worth its key: the run records, and
    /// the crate is one with known items.
    pub fn wants_key(&self, krate: &str) -> (r: bool)
        requires
            self.wf(),
        ensures
            r == (self@.mode is Record && self@.known_crates.contains(krate@)),
    {
        match &self.mode {
            Mode::Record { .. } => self.known_crates.has(krate),
            Mode::Alone => false,
        }
    }

    /// A use.
    pub fn record_ref(&mut self, used: &Use)
        requires
            old(self).wf(),
        ensures
            final(self).wf(),
            final(self)@ == match used {
                Use::Own => old(self)@,
                Use::Local { id, reachable, key, place } => UnusedPubView {
                    local_refs: old(self)@.local_refs.insert(*id),
                    own_refs: match own_position(*reachable, key@, *place) {
                        Some(position) => old(self)@.own_refs.insert(position),
                        None => old(self)@.own_refs,
                    },
                    ..old(self)@
                },
                Use::Foreign { krate, key } => UnusedPubView {
                    foreign_refs: if old(self)@.mode is Record && old(self)@.known_crates.contains(
                        krate@,
                    ) && old(self)@.known.contains(key@) {
                        old(self)@.foreign_refs.insert(key@)
                    } else {
                        old(self)@.foreign_refs
                    },
                    ..old(self)@
                },
            },
            final(self)@ == after_use(old(self)@, used),
    {
        broadcast use vstd::std_specs::hash::group_hash_axioms;

        let ghost before = self@;
        match used {
            // An item naming itself (recursion, its own signature) is no use.
            Use::Own => {},
            Use::Local { id, reachable, key, place } => {
                self.local_refs.insert(*id);
                if let (true, Some((file, lo, _))) = (*reachable, place) {
                    let krate = crate_name_of(key.as_str());
                    let at = position_key(krate.as_str(), file.as_str(), *lo);
                    self.own_refs.insert(at.as_str());
                    assert(self@.own_refs =~= before.own_refs.insert(at@));
                }
            },
            Use::Foreign { krate, key } => {
                if self.wants_key(krate.as_str()) && self.known.has(key.as_str()) {
                    self.foreign_refs.insert(key.as_str());
                    assert(self@.foreign_refs =~= before.foreign_refs.insert(key@));
                }
            },
        }
        assert(self@.defs =~= before.defs);
    }

    /// The crate is checked: what to report, or what to record. `section` is
    /// the baseline section its findings belong to.
    pub fn check_crate_post(self, section: &str) -> (post: Post)
        requires
            self.wf(),
        ensures
            match self@.mode {
                ModeView::Alone => if self@.is_test {
                    post is Nothing
                } else {
                    post matches Post::Report(defs) && item_views(defs@) == reported_alone(
                        self@.defs,
                        self@.local_refs,
                    )
                },
                ModeView::Record { dir, unit } => post matches Post::Write { refs, defs } && {
                    &&& refs.0@ == unit.refs(dir)
                    &&& exists|listed: Seq<Seq<char>>|
                        {
                            &&& #[trigger] increasing(listed)
                            &&& refs.1@ == refs_text(listed)
                            &&& forall|t: Seq<char>| #[trigger]
                                listed.contains(t) <==> self@.foreign_refs.contains(t)
                                    || self@.own_refs.contains(t)
                        }
                    &&& match defs {
                        Some((path, text)) => {
                            &&& !self@.is_test && !self@.is_proc_macro
                            &&& path@ == unit.defs(dir)
                            &&& text@ == defs_text(
                                DefsView {
                                    section: section@,
                                    defs: self@.defs.map_values(|def: (u64, DefView)| def.1),
                                },
                            )
                        },
                        None => self@.is_test || self@.is_proc_macro,
                    }
                    &&& defs is Some <==> records_items(self@)
                    &&& exists|listed: Seq<Seq<char>>|
                        {
                            &&& #[trigger] increasing(listed)
                            &&& refs.1@ == refs_text(listed)
                            &&& forall|t: Seq<char>| #[trigger]
                                listed.contains(t) <==> recorded_uses(self@).contains(t)
                        }
                },
            },
    {
        let ghost whole = self@;
        match self.mode {
            Mode::Alone => {
                if self.is_test {
                    return Post::Nothing;
                }
                let unused = unused_items(self.defs, &self.local_refs);
                Post::Report(without_members(unused))
            },
            Mode::Record { dir, unit } => {
                let mut refs = self.foreign_refs;
                let ghost foreign = refs;
                let mut i: usize = 0;
                while i < self.own_refs.len()
                    invariant
                        self.own_refs.wf(),
                        refs.wf(),
                        i <= self.own_refs.listed().len(),
                        forall|t: Seq<char>| #[trigger]
                            refs.contains(t) <==> foreign.contains(t)
                                || self.own_refs.listed().take(i as int).contains(t),
                    decreases self.own_refs.listed().len() - i,
                {
                    let ghost all = self.own_refs.listed();
                    let ghost was = all.take(i as int);
                    let ghost now = all.take(i + 1);
                    let text = self.own_refs.at(i);
                    refs.insert(text.as_str());
                    proof {
                        assert(now =~= was.push(text@));
                        assert(now[i as int] == text@);
                        assert forall|t: Seq<char>| #[trigger]
                            now.contains(t) <==> was.contains(t) || t == text@ by {
                            if was.contains(t) {
                                let k = choose|k: int| 0 <= k < was.len() && was[k] == t;
                                assert(now[k] == t);
                            }
                        }
                    }
                    i = i + 1;
                }
                assert(self.own_refs.listed().take(i as int) =~= self.own_refs.listed());
                let refs_file = (unit.refs(dir.as_str()), write_refs(&refs));
                proof {
                    let listed = refs.listed();
                    assert(increasing(listed));
                    assert forall|t: Seq<char>| #[trigger]
                        listed.contains(t) <==> whole.foreign_refs.contains(t)
                            || whole.own_refs.contains(t) by {
                        assert(refs.contains(t) <==> foreign.contains(t)
                            || self.own_refs.listed().contains(t));
                        assert(whole.own_refs.contains(t) <==> self.own_refs.contains(t));
                    }
                }
                let defs_file = if self.is_test || self.is_proc_macro {
                    None
                } else {
                    let defs = without_ids(self.defs);
                    Some((unit.defs(dir.as_str()), write_defs(section, &defs)))
                };
                Post::Write { refs: refs_file, defs: defs_file }
            },
        }
    }
}

/// The crates of the keys.
fn crates_among(keys: &TextSet) -> (crates: TextSet)
    ensures
        crates.wf(),
        forall|c: Seq<char>| #[trigger]
            crates.contains(c) <==> exists|k: Seq<char>| #[trigger]
                keys.contains(k) && crate_of(k) == c,
{
    let ghost all = keys.listed();
    let mut crates = TextSet::new();
    let mut i: usize = 0;
    while i < keys.len()
        invariant
            all == keys.listed(),
            i <= all.len(),
            crates.wf(),
            forall|c: Seq<char>| #[trigger]
                crates.contains(c) <==> exists|j: int|
                    0 <= j < i && crate_of(#[trigger] all[j]) == c,
        decreases all.len() - i,
    {
        let ghost before = crates;
        let krate = crate_name_of(keys.at(i).as_str());
        crates.insert(krate.as_str());
        proof {
            assert(krate@ == crate_of(all[i as int]));
            assert forall|c: Seq<char>| #[trigger]
                crates.contains(c) <==> exists|j: int|
                    0 <= j < i + 1 && crate_of(#[trigger] all[j]) == c by {
                assert(before.contains(c) <==> exists|j: int|
                    0 <= j < i && crate_of(#[trigger] all[j]) == c);
            }
        }
        i = i + 1;
    }
    proof {
        assert forall|c: Seq<char>| #[trigger]
            crates.contains(c) <==> exists|k: Seq<char>| #[trigger]
                keys.contains(k) && crate_of(k) == c by {
            if crates.contains(c) {
                let j = choose|j: int| 0 <= j < i && crate_of(#[trigger] all[j]) == c;
                assert(keys.contains(all[j]));
            }
            if exists|k: Seq<char>| #[trigger] keys.contains(k) && crate_of(k) == c {
                let k = choose|k: Seq<char>| #[trigger] keys.contains(k) && crate_of(k) == c;
                let j = choose|j: int| 0 <= j < all.len() && all[j] == k;
                assert(crate_of(all[j]) == c);
            }
        }
    }
    crates
}

/// The items that no use of was seen.
fn unused_items(defs: Vec<(u64, Def)>, refs: &HashSet<u64>) -> (out: Vec<(u64, Def)>)
    ensures
        item_views(out@) == item_views(defs@).filter(not_used(refs@)),
{
    broadcast use vstd::std_specs::hash::group_hash_axioms;

    let ghost all = item_views(defs@);
    let ghost keep = not_used(refs@);
    let mut out: Vec<(u64, Def)> = Vec::new();
    reveal(Seq::filter);
    assert(item_views(out@) =~= all.take(0).filter(keep));
    for def in it: defs
        invariant
            it.seq() == defs@,
            all == item_views(defs@),
            keep == not_used(refs@),
            item_views(out@) == all.take(it.index() as int).filter(keep),
    {
        broadcast use vstd::std_specs::hash::group_hash_axioms;

        let ghost before = item_views(out@);
        assert((def.0, def.1@) == all[it.index() as int]);
        assert(all.take(it.index() + 1).drop_last() =~= all.take(it.index() as int));
        reveal(Seq::filter);
        if !refs.contains(&def.0) {
            out.push(def);
            assert(item_views(out@) =~= before.push((def.0, def.1@)));
        }
    }
    assert(all.take(defs@.len() as int) =~= all);
    out
}

/// The items that are not of a type or trait among them.
fn without_members(defs: Vec<(u64, Def)>) -> (out: Vec<(u64, Def)>)
    ensures
        item_views(out@) == item_views(defs@).filter(not_under(item_views(defs@))),
{
    let ghost all = item_views(defs@);
    let ghost keep = not_under(all);
    let mut keys = TextSet::new();
    let mut i: usize = 0;
    while i < defs.len()
        invariant
            i <= defs@.len(),
            all == item_views(defs@),
            keys.wf(),
            forall|k: Seq<char>| #[trigger] keys.contains(k) <==> is_key_of(all.take(i as int), k),
        decreases defs@.len() - i,
    {
        let ghost before = keys;
        keys.insert(defs[i].1.key.as_str());
        proof {
            let now = all.take(i + 1);
            let was = all.take(i as int);
            assert(now[i as int].1.key == defs@[i as int].1.key@);
            assert forall|k: Seq<char>| #[trigger] keys.contains(k) <==> is_key_of(now, k) by {
                assert(before.contains(k) <==> is_key_of(was, k));
                if is_key_of(was, k) {
                    let j = choose|j: int| 0 <= j < was.len() && (#[trigger] was[j]).1.key == k;
                    assert(now[j] == was[j]);
                }
                if is_key_of(now, k) {
                    let j = choose|j: int| 0 <= j < now.len() && (#[trigger] now[j]).1.key == k;
                    if j < i {
                        assert(was[j] == now[j]);
                    }
                }
            }
        }
        i = i + 1;
    }
    assert(all.take(i as int) =~= all);
    let mut out: Vec<(u64, Def)> = Vec::new();
    reveal(Seq::filter);
    assert(item_views(out@) =~= all.take(0).filter(keep));
    for def in it: defs
        invariant
            it.seq() == defs@,
            all == item_views(defs@),
            keep == not_under(all),
            keys.wf(),
            forall|k: Seq<char>| #[trigger] keys.contains(k) <==> is_key_of(all, k),
            item_views(out@) == all.take(it.index() as int).filter(keep),
    {
        let ghost before = item_views(out@);
        assert((def.0, def.1@) == all[it.index() as int]);
        assert(all.take(it.index() + 1).drop_last() =~= all.take(it.index() as int));
        reveal(Seq::filter);
        assert(keep((def.0, def.1@)) == !keys.contains(def.1@.parent));
        if !keys.has(def.1.parent.as_str()) {
            out.push(def);
            assert(item_views(out@) =~= before.push((def.0, def.1@)));
        }
    }
    assert(all.take(defs@.len() as int) =~= all);
    out
}

fn without_ids(defs: Vec<(u64, Def)>) -> (out: Vec<Def>)
    ensures
        def_views(out@) == item_views(defs@).map_values(|def: (u64, DefView)| def.1),
{
    let ghost all = item_views(defs@).map_values(|def: (u64, DefView)| def.1);
    let mut out: Vec<Def> = Vec::new();
    assert(def_views(out@) =~= all.take(0));
    for def in it: defs
        invariant
            it.seq() == defs@,
            all == item_views(defs@).map_values(|def: (u64, DefView)| def.1),
            def_views(out@) == all.take(it.index() as int),
    {
        let ghost before = def_views(out@);
        assert(def.1@ == all[it.index() as int]);
        let (_, one) = def;
        out.push(one);
        assert(def_views(out@) =~= before.push(one@));
        assert(all.take(it.index() + 1) =~= all.take(it.index() as int).push(one@));
    }
    assert(all.take(defs@.len() as int) =~= all);
    out
}

/// A use of an item from its own crate is recorded as the position of what is
/// recorded of the item, in whichever build of the crate the use is.
pub proof fn a_use_is_recorded_at_its_items_position(
    item: &Item,
    place: (String, u32, u32),
    key: Seq<char>,
)
    requires
        item.place == Some(place),
        crate_of(key) == crate_of(item.key@),
    ensures
        own_position(true, key, item.place) == Some(
            described(item, (place.0@, place.1, place.2)).position(),
        ),
{
}

/// A crate judged alone reports an item exactly when no use of it was seen and
/// the type or trait it belongs to is not itself unused.
pub proof fn alone_an_item_is_reported_when_unused(
    defs: Seq<(u64, DefView)>,
    refs: Set<u64>,
    item: (u64, DefView),
)
    requires
        defs.contains(item),
    ensures
        reported_alone(defs, refs).contains(item) <==> !refs.contains(item.0) && !is_key_of(
            defs.filter(not_used(refs)),
            item.1.parent,
        ),
{
    let unused = defs.filter(not_used(refs));
    lemma_filtered(defs, not_used(refs), item);
    lemma_filtered(unused, not_under(unused), item);
}

/// An item is recorded exactly when it can be reached from outside, was
/// written in the crate's own sources, is none of the exempt, is not silenced
/// and has a place, in a compilation that is no test harness.
pub proof fn only_reachable_items_of_the_crates_own_are_recorded(item: &Item, is_test: bool)
    ensures
        recording(item, is_test) == Recording::Recorded ==> item.reachable && !is_test
            && !item.from_expansion && !item.exempt && !item.included && !item.silent && item.place
            is Some,
        item.reachable && !is_test && !item.from_expansion && !item.exempt && !item.included
            && !item.silent && item.place is Some ==> recording(item, is_test)
            == Recording::Recorded,
        recording(item, is_test) == Recording::Expected ==> item.silent && item.expectation
            && item.reachable && !is_test,
        item.reachable && !is_test && !item.from_expansion && !item.exempt && !item.included
            && item.silent && item.expectation ==> recording(item, is_test) == Recording::Expected,
{
}

/// What is recorded of an item is what the compiler says of it.
pub proof fn an_item_is_recorded_as_it_is(item: &Item, place: (Seq<char>, u32, u32))
    ensures
        ({
            let def = described(item, place);
            &&& def.key == item.key@ && def.descr == item.descr@ && def.level == item.level@
            &&& def.file == place.0 && def.lo == place.1 && def.hi == place.2
            &&& item.parent matches Some(parent) ==> def.parent == parent@
            &&& item.parent is None ==> def.parent.len() == 0
            &&& def.notes == level_notes(item.level@, item.source@)
        }),
{
}

/// An item's path names its crate, once: behind the crate stands the path, and
/// a path that names the crate already is left as it is.
pub proof fn a_path_names_its_crate_once(krate: Seq<char>, path: Seq<char>)
    ensures
        starts_with(qualified(krate, path), krate + "::"@),
        qualified(krate, qualified(krate, path)) == qualified(krate, path),
        qualified(krate, path) == path || qualified(krate, path) == krate + "::"@ + path,
        starts_with(path, krate + "::"@) ==> qualified(krate, path) == path,
        !starts_with(path, krate + "::"@) ==> qualified(krate, path).len() == krate.len() + 2
            + path.len(),
{
    reveal_strlit("::");
    let head = krate + "::"@;
    assert((head + path).take(head.len() as int) =~= head);
}

/// A text with hyphens has one wherever there was a `_`, and is otherwise as
/// it was.
pub proof fn hyphens_stand_for_underscores(s: Seq<char>)
    ensures
        hyphenated(s).len() == s.len(),
        !hyphenated(s).contains('_'),
        forall|i: int|
            0 <= i < s.len() && s[i] == '_' ==> #[trigger] hyphenated(s)[i] == '-',
        forall|i: int|
            0 <= i < s.len() && s[i] != '_' ==> #[trigger] hyphenated(s)[i] == s[i],
{
}

/// The items of a library and those of a binary of the same name never share a
/// key, and two items of one crate share one only if they share their path.
pub proof fn keys_tell_a_binary_from_its_library(
    krate: Seq<char>,
    path: Seq<char>,
    other: Seq<char>,
)
    requires
        starts_with(path, "::"@),
        starts_with(other, "::"@),
    ensures
        key_of(krate, true, path) != key_of(krate, false, other),
        key_of(krate, true, path) == key_of(krate, true, other) ==> path == other,
        key_of(krate, false, path) == key_of(krate, false, other) ==> path == other,
{
    reveal_strlit("::");
    reveal_strlit("[bin]");
    reveal_strlit("");
    let n = krate.len() as int;
    assert(path.take(2)[0] == ':' && other.take(2)[0] == ':');
    assert(key_of(krate, true, path)[n] == '[');
    assert(key_of(krate, false, other)[n] == ':');
    assert(key_of(krate, true, path).skip(n + 5) =~= path);
    assert(key_of(krate, true, other).skip(n + 5) =~= other);
    assert(key_of(krate, false, path).skip(n) =~= path);
    assert(key_of(krate, false, other).skip(n) =~= other);
}

/// A use counts for the first item around it that is neither a constructor nor
/// a variant: everything before that is one of those, and it is itself unless
/// it is one.
pub proof fn a_use_of_a_constructor_counts_for_its_type(kinds: Seq<ItemKind>)
    requires
        kinds.len() > 0,
    ensures
        0 <= owner_among(kinds) < kinds.len(),
        forall|i: int|
            0 <= i < owner_among(kinds) ==> #[trigger] kinds[i] == ItemKind::Ctor || kinds[i]
                == ItemKind::Variant,
        kinds[0] != ItemKind::Ctor && kinds[0] != ItemKind::Variant ==> owner_among(kinds) == 0,
        kinds.len() > 1 && (kinds[0] == ItemKind::Ctor || kinds[0] == ItemKind::Variant)
            ==> owner_among(kinds) > 0,
        owner_among(kinds) < kinds.len() - 1 ==> kinds[owner_among(kinds)] != ItemKind::Ctor || (
        owner_among(kinds) > 0 && kinds[owner_among(kinds) - 1] == ItemKind::Variant),
    decreases kinds.len(),
{
    if kinds.len() > 1 && kinds[0] == ItemKind::Ctor {
        let rest = kinds.skip(1);
        a_use_of_a_constructor_counts_for_its_type(rest);
        assert forall|i: int| 0 <= i < owner_among(kinds) implies #[trigger] kinds[i]
            == ItemKind::Ctor || kinds[i] == ItemKind::Variant by {
            if i > 0 {
                assert(rest[i - 1] == kinds[i]);
            }
        }
    }
}

/// The file that an enclosing module's body is in.
pub open spec fn body_of(around: Enclosing) -> Option<u32> {
    match around {
        Enclosing::Crate { body } => Some(body),
        Enclosing::Module { body, .. } => Some(body),
        Enclosing::Other => None,
    }
}

/// An item is in a file brought in from elsewhere exactly when, going out from
/// it through modules, there is a body around that is in another file than
/// what it encloses: the item itself, or the place where the module inside is
/// declared.
pub proof fn a_file_is_brought_in_where_a_body_is_in_another(file: u32, around: Seq<Enclosing>)
    ensures
        brought_in(file, around) <==> exists|k: int|
            0 <= k < around.len() && #[trigger] body_of(around[k]) is Some && (forall|m: int|
                0 <= m < k ==> #[trigger] around[m] is Module) && body_of(around[k])->0 != if k
                == 0 {
                file
            } else {
                around[k - 1]->declared
            },
    decreases around.len(),
{
    if around.len() > 0 {
        let rest = around.skip(1);
        if around[0] is Module {
            a_file_is_brought_in_where_a_body_is_in_another(around[0]->declared, rest);
        }
        if brought_in(file, around) {
            if body_of(around[0])->0 != file {
                assert(body_of(around[0]) is Some);
            } else {
                let declared = around[0]->declared;
                let k = choose|k: int|
                    0 <= k < rest.len() && #[trigger] body_of(rest[k]) is Some && (forall|m: int|
                        0 <= m < k ==> #[trigger] rest[m] is Module) && body_of(rest[k])->0 != if k
                        == 0 {
                        declared
                    } else {
                        rest[k - 1]->declared
                    };
                assert(body_of(around[k + 1]) is Some);
                assert forall|m: int| 0 <= m < k + 1 implies #[trigger] around[m] is Module by {
                    if m > 0 {
                        assert(rest[m - 1] is Module);
                    }
                }
                if k > 0 {
                    assert(rest[k - 1] == around[k]);
                }
            }
        }
        if exists|k: int|
            0 <= k < around.len() && #[trigger] body_of(around[k]) is Some && (forall|m: int|
                0 <= m < k ==> #[trigger] around[m] is Module) && body_of(around[k])->0 != if k
                == 0 {
                file
            } else {
                around[k - 1]->declared
            } {
            let k = choose|k: int|
                0 <= k < around.len() && #[trigger] body_of(around[k]) is Some && (forall|m: int|
                    0 <= m < k ==> #[trigger] around[m] is Module) && body_of(around[k])->0 != if k
                    == 0 {
                    file
                } else {
                    around[k - 1]->declared
                };
            if k > 0 {
                assert(around[0] is Module);
                assert(body_of(rest[k - 1]) is Some);
                assert forall|m: int| 0 <= m < k - 1 implies #[trigger] rest[m] is Module by {
                    assert(around[m + 1] is Module);
                }
                if k > 1 {
                    assert(rest[k - 2] == around[k - 1]);
                }
            }
        }
    }
}

/// Judged alone, a crate reports an item exactly when no use of it was seen
/// and every item with the key of its type or trait had a use seen.
pub proof fn alone_an_item_is_reported_unless_a_use_was_seen(
    defs: Seq<(u64, DefView)>,
    refs: Set<u64>,
    item: (u64, DefView),
)
    ensures
        reported_alone(defs, refs).contains(item) <==> defs.contains(item) && !refs.contains(item.0)
            && forall|m: int|
            0 <= m < defs.len() && (#[trigger] defs[m]).1.key == item.1.parent ==> refs.contains(
                defs[m].0,
            ),
{
    let unused = defs.filter(not_used(refs));
    lemma_filtered(defs, not_used(refs), item);
    lemma_filtered(unused, not_under(unused), item);
    if is_key_of(unused, item.1.parent) {
        let k = choose|k: int|
            0 <= k < unused.len() && (#[trigger] unused[k]).1.key == item.1.parent;
        assert(unused.contains(unused[k]));
        lemma_filtered(defs, not_used(refs), unused[k]);
        let m = choose|m: int| 0 <= m < defs.len() && defs[m] == unused[k];
        assert(defs[m].1.key == item.1.parent);
    } else {
        assert forall|m: int|
            0 <= m < defs.len() && (#[trigger] defs[m]).1.key == item.1.parent implies refs.contains(
            defs[m].0,
        ) by {
            if !refs.contains(defs[m].0) {
                assert(defs.contains(defs[m]));
                lemma_filtered(defs, not_used(refs), defs[m]);
                let k = choose|k: int| 0 <= k < unused.len() && unused[k] == defs[m];
                assert(unused[k].1.key == item.1.parent);
            }
        }
    }
}

/// The keys worth recording are those that some record lists, and the crates
/// worth asking for are exactly those of such keys.
pub proof fn a_recorded_key_is_worth_a_use(records: Seq<Seq<char>>, key: Seq<char>)
    ensures
        keys_in(records).contains(key) ==> crates_of(keys_in(records)).contains(crate_of(key)),
        keys_in(records).contains(key) <==> exists|i: int, j: int|
            0 <= i < records.len() && (defs_of_text(#[trigger] records[i]) is Some) && 0 <= j
                < defs_of_text(records[i])->0.defs.len() && (#[trigger] defs_of_text(
                records[i],
            )->0.defs[j]).key == key,
        forall|krate: Seq<char>| #[trigger]
            crates_of(keys_in(records)).contains(krate) ==> exists|k: Seq<char>| #[trigger]
                keys_in(records).contains(k) && crate_of(k) == krate,
{
}

/// An associated item belongs to the trait it is declared in, or to the type
/// of the block it is in, and no other item belongs to any.
pub proof fn only_associated_items_belong_to_something(
    kind: ItemKind,
    parent: ItemKind,
    own: Seq<char>,
    of_type: Option<Seq<char>>,
)
    ensures
        (kind == ItemKind::AssocFn || kind == ItemKind::AssocConst) && parent == ItemKind::Trait
            ==> parent_among(kind, parent, own, of_type) == Some(own),
        (kind == ItemKind::AssocFn || kind == ItemKind::AssocConst) && parent == ItemKind::Impl
            ==> parent_among(kind, parent, own, of_type) == of_type,
        parent_among(kind, parent, own, of_type) is Some ==> (kind == ItemKind::AssocFn || kind
            == ItemKind::AssocConst) && (parent == ItemKind::Trait || parent == ItemKind::Impl),
{
}

/// A level that comes with the lint's own name has one note and no advice; one
/// that comes with a group's says what implies it, and on the command line how
/// to override it.
pub proof fn a_level_implied_by_a_group_says_so(level: Seq<char>, source: LevelSourceView)
    ensures
        ({
            let notes = level_notes(level, source);
            match source {
                LevelSourceView::Default => notes.len() == 1 && !notes[0].help && notes[0].at
                    is None,
                LevelSourceView::CommandLine { value, .. } => {
                    &&& notes.len() == if value == LINT@ {
                        1int
                    } else {
                        2int
                    }
                    &&& !notes[0].help && notes[0].at is None
                    &&& notes.len() == 2 ==> notes[1].help && notes[1].at is None
                },
                LevelSourceView::Node { attr, at } => {
                    &&& notes.len() == if attr == LINT@ {
                        1int
                    } else {
                        2int
                    }
                    &&& notes[0].at == at && !notes[0].help
                    &&& notes.len() == 2 ==> !notes[1].help && notes[1].at is None
                },
            }
        }),
{
}

/// A path is a use unless it is the bare self type of an `impl` block or what
/// `#[derive]` writes of the type itself: an alias always counts outside what
/// is derived, and outside an `impl`'s self type everything does.
pub proof fn a_path_is_a_use_unless_it_says_nothing_new(
    alias: bool,
    impl_self_type: bool,
    derived: bool,
    of_own_type: bool,
)
    ensures
        derived && of_own_type ==> !counts_as_use(alias, impl_self_type, derived, of_own_type),
        impl_self_type && !alias ==> !counts_as_use(alias, impl_self_type, derived, of_own_type),
        !derived && (alias || !impl_self_type) ==> counts_as_use(
            alias,
            impl_self_type,
            derived,
            of_own_type,
        ),
        !of_own_type && (alias || !impl_self_type) ==> counts_as_use(
            alias,
            impl_self_type,
            derived,
            of_own_type,
        ),
{
}

/// What the language needs and where the program starts is always exempt, what
/// is reached by its symbol only if it can have one, and nothing else is.
pub proof fn what_is_reached_from_outside_is_exempt(
    kind: ItemKind,
    by_symbol: bool,
    lang_item: bool,
    entry: bool,
)
    ensures
        lang_item || entry ==> is_exempt(kind, by_symbol, lang_item, entry),
        by_symbol && (kind == ItemKind::Fn || kind == ItemKind::AssocFn || kind
            == ItemKind::Static) ==> is_exempt(kind, by_symbol, lang_item, entry),
        is_exempt(kind, by_symbol, lang_item, entry) ==> lang_item || entry || (by_symbol && (kind
            == ItemKind::Fn || kind == ItemKind::AssocFn || kind == ItemKind::Static)),
{
}

/// In a run every compilation of a file records its part but a build script,
/// and outside a run none does.
pub proof fn every_crate_but_a_build_script_records(krate: Seq<char>)
    ensures
        !records_its_part(false, krate, true),
        !records_its_part(true, krate, false),
        records_its_part(true, krate, true) || krate == "build_script_build"@,
        !records_its_part(true, "build_script_build"@, true),
{
}

/// A use takes nothing away and adds itself: one in the crate by the item's
/// id, and by its position if it can be reached from outside; one of another
/// crate's item by its key, if a record of the run lists that key under a crate
/// of that name. An item naming itself is none.
pub proof fn a_use_adds_itself_and_takes_nothing_away(pass: UnusedPubView, used: &Use)
    ensures
        ({
            let after = after_use(pass, used);
            &&& after.defs == pass.defs && after.mode == pass.mode
            &&& after.known == pass.known && after.known_crates == pass.known_crates
            &&& after.is_test == pass.is_test && after.is_proc_macro == pass.is_proc_macro
            &&& pass.local_refs.subset_of(after.local_refs)
            &&& pass.own_refs.subset_of(after.own_refs)
            &&& pass.foreign_refs.subset_of(after.foreign_refs)
            &&& match used {
                Use::Own => after.local_refs == pass.local_refs && after.own_refs == pass.own_refs
                    && after.foreign_refs == pass.foreign_refs,
                Use::Local { id, reachable, key, place } => {
                    &&& after.local_refs.contains(*id)
                    &&& after.foreign_refs == pass.foreign_refs
                    &&& *place matches Some((file, lo, _)) ==> (*reachable
                        ==> after.own_refs.contains(
                        position(crate_of(key@), file@, lo as nat),
                    ))
                    &&& !*reachable ==> after.own_refs == pass.own_refs
                },
                Use::Foreign { krate, key } => {
                    &&& after.local_refs == pass.local_refs && after.own_refs == pass.own_refs
                    &&& pass.mode is Record && pass.known_crates.contains(krate@)
                        && pass.known.contains(key@) ==> after.foreign_refs.contains(key@)
                    &&& forall|other: Seq<char>|
                        other != key@ ==> (#[trigger] after.foreign_refs.contains(other)
                            == pass.foreign_refs.contains(other))
                    &&& !pass.known.contains(key@) ==> after.foreign_refs == pass.foreign_refs
                },
            }
        }),
{
}

/// An item that is recorded stands behind the others as it is described, and
/// nothing else changes; any other item changes nothing.
pub proof fn an_item_adds_itself_behind_the_others(pass: UnusedPubView, item: &Item)
    ensures
        ({
            let after = after_item(pass, item);
            &&& pass.defs.is_prefix_of(after.defs)
            &&& after.local_refs == pass.local_refs && after.own_refs == pass.own_refs
            &&& after.foreign_refs == pass.foreign_refs && after.mode == pass.mode
            &&& recording(item, pass.is_test) == Recording::Recorded ==> after.defs.len()
                == pass.defs.len() + 1 && after.defs.last().0 == item.id && after.defs.last().1.key
                == item.key@
            &&& recording(item, pass.is_test) != Recording::Recorded ==> after.defs == pass.defs
        }),
{
}

/// What a compilation records as used is every use it saw of an item that can
/// be reached from outside, by its position, and every use of another crate's
/// item that is worth it, by its key; and no use is lost by one that follows.
pub proof fn every_use_that_was_seen_is_recorded(
    pass: UnusedPubView,
    used: &Use,
    later: &Use,
    t: Seq<char>,
)
    ensures
        recorded_uses(pass).contains(t) <==> pass.own_refs.contains(t) || pass.foreign_refs.contains(
            t,
        ),
        recorded_uses(pass).subset_of(recorded_uses(after_use(pass, used))),
        recorded_uses(after_use(pass, used)).subset_of(
            recorded_uses(after_use(after_use(pass, used), later)),
        ),
        used matches Use::Foreign { krate, key } ==> (pass.mode is Record
            && pass.known_crates.contains(krate@) && pass.known.contains(key@) ==> recorded_uses(
            after_use(pass, used),
        ).contains(key@)),
        used matches Use::Local { id, reachable, key, place } ==> (*place matches Some(
            (file, lo, _),
        ) ==> (*reachable ==> recorded_uses(after_use(pass, used)).contains(
            position(crate_of(key@), file@, lo as nat),
        ))),
{
    a_use_adds_itself_and_takes_nothing_away(pass, used);
    a_use_adds_itself_and_takes_nothing_away(after_use(pass, used), later);
}

/// The items of a crate are recorded by its own build: neither by a test
/// harness of it nor, as nothing can name them, for a proc macro.
pub proof fn only_a_crates_own_build_records_its_items(pass: UnusedPubView)
    ensures
        records_items(pass) ==> !pass.is_test,
        records_items(pass) ==> !pass.is_proc_macro,
        !pass.is_test && !pass.is_proc_macro ==> records_items(pass),
{
}

} // verus!
