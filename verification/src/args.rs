//! The command line: what `cargo mordant` takes for itself and what it
//! passes on, and the form in which findings are printed.

use vstd::prelude::*;
use vstd::string::*;

use crate::text::{
    cut, has_prefix, join_with, joined, lemma_cut, lemma_split_joined, same, split, split_at_each,
    starts_with, strip_prefix, viewed, views,
};

verus! {

/// An argument. The text of one that is not UTF-8 holds replacement
/// characters.
pub struct Arg {
    pub text: String,
    pub utf8: bool,
    /// Its place on the command line.
    pub at: usize,
}

/// What an [`Arg`] is.
pub struct ArgView {
    pub text: Seq<char>,
    pub utf8: bool,
    pub at: nat,
}

impl View for Arg {
    type V = ArgView;

    open spec fn view(&self) -> ArgView {
        ArgView { text: self.text@, utf8: self.utf8, at: self.at as nat }
    }
}

impl ArgView {
    /// Whether the argument is `text`.
    pub open spec fn is_text(self, text: Seq<char>) -> bool {
        self.utf8 && self.text == text
    }
}

impl Arg {
    pub fn copy(&self) -> (arg: Arg)
        ensures
            arg@ == self@,
    {
        Arg { text: self.text.clone(), utf8: self.utf8, at: self.at }
    }

    /// Whether the argument is `text`.
    pub fn is_text(&self, text: &str) -> (r: bool)
        ensures
            r == self@.is_text(text@),
    {
        self.utf8 && same(self.text.as_str(), text)
    }
}

/// The value of an option, or of a variable of the environment.
pub struct Value {
    pub text: String,
    pub utf8: bool,
    /// The place of the argument that is the value, if one is.
    pub at: Option<usize>,
}

/// What a [`Value`] is.
pub struct ValueView {
    pub text: Seq<char>,
    pub utf8: bool,
    pub at: Option<nat>,
}

impl View for Value {
    type V = ValueView;

    open spec fn view(&self) -> ValueView {
        ValueView {
            text: self.text@,
            utf8: self.utf8,
            at: match self.at {
                Some(at) => Some(at as nat),
                None => None,
            },
        }
    }
}

/// Every value that the option `name` is given, as `--name <value>` or
/// `--name=<value>`.
pub open spec fn values_of(args: Seq<ArgView>, name: Seq<char>) -> Seq<ValueView>
    decreases args.len(),
{
    if args.len() == 0 {
        Seq::empty()
    } else if args[0].is_text(name) {
        if args.len() == 1 {
            Seq::empty()
        } else {
            let value = ValueView {
                text: args[1].text,
                utf8: args[1].utf8,
                at: Some(args[1].at),
            };
            seq![value] + values_of(args.skip(2), name)
        }
    } else if args[0].utf8 && starts_with(args[0].text, name + "="@) {
        let value = ValueView {
            text: args[0].text.skip(name.len() as int + 1),
            utf8: true,
            at: None,
        };
        seq![value] + values_of(args.skip(1), name)
    } else {
        values_of(args.skip(1), name)
    }
}

/// Every value `name` is given.
pub fn option_values(args: &Vec<Arg>, name: &str) -> (values: Vec<Value>)
    ensures
        viewed(values@) == values_of(viewed(args@), name@),
{
    let ghost all = viewed(args@);
    let prefix = name.to_owned().concat("=");
    let mut values: Vec<Value> = Vec::new();
    let mut i: usize = 0;
    assert(all.skip(0) =~= all);
    assert(viewed(values@) + values_of(all, name@) =~= values_of(all, name@));
    proof {
        reveal_strlit("=");
    }
    while i < args.len()
        invariant
            all == viewed(args@),
            i <= args@.len(),
            prefix@ == name@ + "="@,
            "="@.len() == 1,
            viewed(values@) + values_of(all.skip(i as int), name@) == values_of(all, name@),
        decreases args@.len() - i,
    {
        let ghost before = viewed(values@);
        let ghost rest = all.skip(i as int);
        assert(rest[0] == args@[i as int]@);
        assert(rest.skip(1) =~= all.skip(i + 1));
        if args[i].is_text(name) {
            if i + 1 < args.len() {
                assert(rest[1] == args@[i + 1]@);
                assert(rest.skip(2) =~= all.skip(i + 2));
                let next = &args[i + 1];
                let value = Value { text: next.text.clone(), utf8: next.utf8, at: Some(next.at) };
                values.push(value);
                assert(viewed(values@) =~= before.push(value@));
                assert(before + (seq![value@] + values_of(all.skip(i + 2), name@)) =~= viewed(
                    values@,
                ) + values_of(all.skip(i + 2), name@));
                i = i + 2;
            } else {
                assert(rest.len() == 1);
                assert(values_of(all.skip(i + 1), name@) =~= Seq::<ValueView>::empty());
                i = i + 1;
            }
        } else {
            let suffix = if args[i].utf8 {
                strip_prefix(args[i].text.as_str(), prefix.as_str())
            } else {
                None
            };
            match suffix {
                Some(text) => {
                    let value = Value { text, utf8: true, at: None };
                    values.push(value);
                    assert(viewed(values@) =~= before.push(value@));
                    assert(before + (seq![value@] + values_of(all.skip(i + 1), name@)) =~= viewed(
                        values@,
                    ) + values_of(all.skip(i + 1), name@));
                },
                None => {},
            }
            i = i + 1;
        }
    }
    assert(values_of(all.skip(i as int), name@) =~= Seq::<ValueView>::empty());
    assert(viewed(values@) + Seq::<ValueView>::empty() =~= viewed(values@));
    values
}

/// The first value `name` is given.
pub fn option_value(args: &Vec<Arg>, name: &str) -> (value: Option<Value>)
    ensures
        match value {
            Some(value) => values_of(viewed(args@), name@).len() > 0 && value@ == values_of(
                viewed(args@),
                name@,
            )[0],
            None => values_of(viewed(args@), name@).len() == 0,
        },
{
    let mut values = option_values(args, name);
    if values.len() == 0 {
        return None;
    }
    assert(values_of(viewed(args@), name@)[0] == values@[0]@);
    Some(values.remove(0))
}

/// What `--message-format` asked for.
pub enum Output {
    Human,
    Short,
    /// JSON on stdout, with the value asked for: cargo's messages pass
    /// through, and the findings join them as `compiler-message`s.
    Json(String),
}

/// What an [`Output`] is.
pub enum OutputView {
    Human,
    Short,
    Json(Seq<char>),
}

impl View for Output {
    type V = OutputView;

    open spec fn view(&self) -> OutputView {
        match self {
            Output::Human => OutputView::Human,
            Output::Short => OutputView::Short,
            Output::Json(value) => OutputView::Json(value@),
        }
    }
}

/// The values of every `--message-format` among the arguments, and the other
/// arguments.
pub open spec fn formats_taken(args: Seq<ArgView>) -> (Seq<Seq<char>>, Seq<ArgView>)
    decreases args.len(),
{
    if args.len() == 0 {
        (Seq::empty(), Seq::empty())
    } else if args[0].text == "--message-format"@ && args.len() > 1 {
        let (values, kept) = formats_taken(args.skip(2));
        (seq![args[1].text] + values, kept)
    } else if starts_with(args[0].text, "--message-format="@) {
        let (values, kept) = formats_taken(args.skip(1));
        (seq![args[0].text.skip("--message-format="@.len() as int)] + values, kept)
    } else {
        let (values, kept) = formats_taken(args.skip(1));
        (values, seq![args[0]] + kept)
    }
}

pub open spec fn asks_for_json(pieces: Seq<Seq<char>>) -> bool {
    exists|i: int| 0 <= i < pieces.len() && starts_with(#[trigger] pieces[i], "json"@)
}

/// What the values of `--message-format` ask for together.
pub open spec fn output_for(values: Seq<Seq<char>>) -> OutputView {
    let together = joined(values, ","@);
    let pieces = split(together, ',');
    if asks_for_json(pieces) {
        OutputView::Json(together)
    } else if pieces.contains("short"@) {
        OutputView::Short
    } else {
        OutputView::Human
    }
}

/// The `--message-format` that cargo is given.
pub open spec fn cargo_format(output: OutputView) -> Seq<char> {
    match output {
        OutputView::Human => "json-render-diagnostics"@,
        OutputView::Short => "json-diagnostic-short,json-render-diagnostics"@,
        OutputView::Json(value) => value,
    }
}

impl Output {
    /// Takes every `--message-format` out of `args`, since cargo is given its
    /// own.
    pub fn take(args: &mut Vec<Arg>) -> (output: Output)
        ensures
            output@ == output_for(formats_taken(viewed(old(args)@)).0),
            viewed(final(args)@) == formats_taken(viewed(old(args)@)).1,
    {
        let ghost all = viewed(args@);
        let ghost whole = formats_taken(all);
        let mut values: Vec<String> = Vec::new();
        let mut kept: Vec<Arg> = Vec::new();
        let mut i: usize = 0;
        assert(all.skip(0) =~= all);
        assert(views(values@) + whole.0 =~= whole.0);
        assert(viewed(kept@) + whole.1 =~= whole.1);
        while i < args.len()
            invariant
                args@ == old(args)@,
                all == viewed(args@),
                whole == formats_taken(all),
                i <= args@.len(),
                views(values@) + formats_taken(all.skip(i as int)).0 == whole.0,
                viewed(kept@) + formats_taken(all.skip(i as int)).1 == whole.1,
            decreases args@.len() - i,
        {
            let ghost rest = all.skip(i as int);
            let ghost values_before = views(values@);
            let ghost kept_before = viewed(kept@);
            assert(rest[0] == args@[i as int]@);
            assert(rest.skip(1) =~= all.skip(i + 1));
            if same(args[i].text.as_str(), "--message-format") && i + 1 < args.len() {
                assert(rest[1] == args@[i + 1]@);
                assert(rest.skip(2) =~= all.skip(i + 2));
                let value = args[i + 1].text.clone();
                values.push(value);
                assert(views(values@) =~= values_before.push(value@));
                let ghost after = formats_taken(all.skip(i + 2));
                assert(values_before + (seq![value@] + after.0) =~= views(values@) + after.0);
                i = i + 2;
            } else {
                let ghost after = formats_taken(all.skip(i + 1));
                match strip_prefix(args[i].text.as_str(), "--message-format=") {
                    Some(value) => {
                        values.push(value);
                        assert(views(values@) =~= values_before.push(value@));
                        assert(values_before + (seq![value@] + after.0) =~= views(values@)
                            + after.0);
                    },
                    None => {
                        let arg = args[i].copy();
                        kept.push(arg);
                        assert(viewed(kept@) =~= kept_before.push(arg@));
                        assert(kept_before + (seq![arg@] + after.1) =~= viewed(kept@) + after.1);
                    },
                }
                i = i + 1;
            }
        }
        proof {
            let done = formats_taken(all.skip(i as int));
            assert(views(values@) + done.0 =~= views(values@));
            assert(viewed(kept@) + done.1 =~= viewed(kept@));
        }
        *args = kept;
        let together = join_with(&values, ",");
        let pieces = split_at_each(together.as_str(), ',');
        let mut json = false;
        let mut j: usize = 0;
        while j < pieces.len()
            invariant
                j <= pieces@.len(),
                json == asks_for_json(views(pieces@).take(j as int)),
            decreases pieces@.len() - j,
        {
            let ghost was = views(pieces@).take(j as int);
            let ghost now = views(pieces@).take(j + 1);
            let hit = has_prefix(pieces[j].as_str(), "json");
            proof {
                assert(now[j as int] == pieces@[j as int]@);
                if asks_for_json(was) {
                    let k = choose|k: int|
                        0 <= k < was.len() && starts_with(#[trigger] was[k], "json"@);
                    assert(now[k] == was[k]);
                }
                if asks_for_json(now) && !hit {
                    let k = choose|k: int|
                        0 <= k < now.len() && starts_with(#[trigger] now[k], "json"@);
                    assert(was[k] == now[k]);
                }
            }
            json = json || hit;
            j = j + 1;
        }
        assert(views(pieces@).take(j as int) =~= views(pieces@));
        if json {
            Output::Json(together)
        } else if crate::text::contains(&pieces, "short") {
            Output::Short
        } else {
            Output::Human
        }
    }

    /// Always JSON, so the run's units can be read off cargo's artifact
    /// messages; cargo still renders diagnostics the way that was asked.
    pub fn for_cargo(&self) -> (value: &str)
        ensures
            value@ == cargo_format(self@),
    {
        match self {
            Output::Human => "json-render-diagnostics",
            Output::Short => "json-diagnostic-short,json-render-diagnostics",
            Output::Json(value) => value.as_str(),
        }
    }
}

/// Whether findings are printed in colour.
pub open spec fn in_colour(
    color: Option<ValueView>,
    variable: Option<ValueView>,
    terminal: bool,
) -> bool {
    match (color, variable) {
        (Some(value), _) => wants_colour(value, terminal),
        (None, Some(value)) => wants_colour(value, terminal),
        (None, None) => terminal,
    }
}

/// Whether a setting asks for colour: any but `always` and `never` leaves it
/// to the terminal.
pub open spec fn wants_colour(value: ValueView, terminal: bool) -> bool {
    (terminal || (value.utf8 && value.text == "always"@)) && !(value.utf8 && value.text
        == "never"@)
}

/// Whether findings are printed in colour: as `color`, the value of
/// `--color`, says, or else as `variable`, the value of `CARGO_TERM_COLOR`,
/// does, and when neither says, when stderr is a terminal.
pub fn styled(color: Option<&Value>, variable: Option<&Value>, terminal: bool) -> (r: bool)
    ensures
        r == ({
            let setting = if color is Some {
                color
            } else {
                variable
            };
            if setting is Some && setting->0.utf8 && setting->0.text@ == "always"@ {
                true
            } else if setting is Some && setting->0.utf8 && setting->0.text@ == "never"@ {
                false
            } else {
                terminal
            }
        }),
        r == in_colour(
            match color {
                Some(value) => Some(value@),
                None => None,
            },
            match variable {
                Some(value) => Some(value@),
                None => None,
            },
            terminal,
        ),
{
    proof {
        reveal_strlit("always");
        reveal_strlit("never");
        assert("always"@.len() != "never"@.len());
    }
    let setting = match color {
        Some(value) => Some(value),
        None => variable,
    };
    match setting {
        Some(value) => if value.utf8 && same(value.text.as_str(), "always") {
            true
        } else if value.utf8 && same(value.text.as_str(), "never") {
            false
        } else {
            terminal
        },
        None => terminal,
    }
}

/// What `cargo mordant` was asked to do.
pub enum Command {
    Help,
    Version,
    List,
    /// `cargo check`, or `cargo fix`, with the lints.
    Run { fix: bool },
}

/// Whether one of the arguments is `text`.
pub open spec fn has_arg(args: Seq<ArgView>, text: Seq<char>) -> bool {
    exists|i: int| 0 <= i < args.len() && (#[trigger] args[i]).is_text(text)
}

/// Whether one of the arguments is `text`.
pub fn is_given(args: &Vec<Arg>, text: &str) -> (r: bool)
    ensures
        r == has_arg(viewed(args@), text@),
{
    let ghost all = viewed(args@);
    let mut i: usize = 0;
    while i < args.len()
        invariant
            all == viewed(args@),
            i <= args@.len(),
            forall|j: int| 0 <= j < i ==> !(#[trigger] all[j]).is_text(text@),
        decreases args@.len() - i,
    {
        assert(all[i as int] == args@[i as int]@);
        if args[i].is_text(text) {
            return true;
        }
        i = i + 1;
    }
    false
}

/// The arguments behind the subcommand: cargo runs `cargo mordant ..` as
/// `cargo-mordant mordant ..`.
pub open spec fn own_args(args: Seq<ArgView>) -> Seq<ArgView> {
    if args.len() > 0 && args[0].is_text("mordant"@) {
        args.skip(1)
    } else {
        args
    }
}

pub open spec fn is_not_fix() -> spec_fn(ArgView) -> bool {
    |arg: ArgView| !arg.is_text("--fix"@)
}

/// The arguments that go to cargo, as far as they are not `--message-format`.
pub open spec fn passed_on(args: Seq<ArgView>) -> Seq<ArgView> {
    own_args(args).filter(is_not_fix())
}

/// What the arguments ask for.
pub open spec fn asked_for(own: Seq<ArgView>) -> Command {
    let help = has_arg(own, "-h"@) || has_arg(own, "--help"@);
    let version = has_arg(own, "-V"@) || has_arg(own, "--version"@);
    match (help, version, has_arg(own, "--list"@)) {
        (true, _, _) => Command::Help,
        (false, true, _) => Command::Version,
        (false, false, true) => Command::List,
        (false, false, false) => Command::Run { fix: has_arg(own, "--fix"@) },
    }
}

impl Command {
    /// Reads the command off the arguments, and takes out what is not for
    /// cargo.
    pub fn take(args: &mut Vec<Arg>) -> (command: Command)
        ensures
            ({
                let own = own_args(viewed(old(args)@));
                command == if has_arg(own, "-h"@) || has_arg(own, "--help"@) {
                    Command::Help
                } else if has_arg(own, "-V"@) || has_arg(own, "--version"@) {
                    Command::Version
                } else if has_arg(own, "--list"@) {
                    Command::List
                } else {
                    Command::Run { fix: has_arg(own, "--fix"@) }
                }
            }),
            command == asked_for(own_args(viewed(old(args)@))),
            viewed(final(args)@) == passed_on(viewed(old(args)@)),
    {
        let ghost given = viewed(args@);
        if args.len() > 0 && args[0].is_text("mordant") {
            assert(given[0] == args@[0]@);
            args.remove(0);
            assert(viewed(args@) =~= given.skip(1));
        } else {
            assert(given.len() > 0 ==> given[0] == args@[0]@);
        }
        let ghost own = viewed(args@);
        assert(own == own_args(given));
        let help = is_given(args, "-h") || is_given(args, "--help");
        let version = is_given(args, "-V") || is_given(args, "--version");
        let list = is_given(args, "--list");
        let fix = is_given(args, "--fix");
        let ghost keep = is_not_fix();
        let mut kept: Vec<Arg> = Vec::new();
        let mut i: usize = 0;
        reveal(Seq::filter);
        assert(viewed(kept@) =~= own.take(0).filter(keep));
        while i < args.len()
            invariant
                own == viewed(args@),
                keep == is_not_fix(),
                i <= args@.len(),
                viewed(kept@) == own.take(i as int).filter(keep),
            decreases args@.len() - i,
        {
            let ghost before = viewed(kept@);
            assert(own[i as int] == args@[i as int]@);
            assert(own.take(i + 1).drop_last() =~= own.take(i as int));
            reveal(Seq::filter);
            if !args[i].is_text("--fix") {
                let arg = args[i].copy();
                kept.push(arg);
                assert(viewed(kept@) =~= before.push(arg@));
            }
            i = i + 1;
        }
        assert(own.take(i as int) =~= own);
        *args = kept;
        if help {
            Command::Help
        } else if version {
            Command::Version
        } else if list {
            Command::List
        } else {
            Command::Run { fix }
        }
    }
}

/// Cargo is given one `--message-format`, its own: of those asked for, none
/// is left among the arguments, but for a last one that names no value.
pub proof fn no_format_is_left(args: Seq<ArgView>, i: int)
    requires
        0 <= i < formats_taken(args).1.len(),
    ensures
        ({
            let kept = formats_taken(args).1;
            &&& !starts_with(kept[i].text, "--message-format="@)
            &&& kept[i].text == "--message-format"@ ==> i == kept.len() - 1
        }),
    decreases args.len(),
{
    let kept = formats_taken(args).1;
    if args[0].text == "--message-format"@ && args.len() > 1 {
        no_format_is_left(args.skip(2), i);
    } else if starts_with(args[0].text, "--message-format="@) {
        no_format_is_left(args.skip(1), i);
    } else if i > 0 {
        assert(kept[i] == formats_taken(args.skip(1)).1[i - 1]);
        no_format_is_left(args.skip(1), i - 1);
    } else if args[0].text == "--message-format"@ {
        assert(formats_taken(args.skip(1)).1.len() == 0);
    }
}

proof fn lemma_first_piece_is_json(s: Seq<char>)
    requires
        starts_with(s, "json"@),
    ensures
        asks_for_json(split(s, ',')),
{
    reveal_strlit("json");
    lemma_cut(s, ',');
    let at = cut(s, ',');
    assert(s.take(4)[0] == 'j' && s.take(4)[1] == 's' && s.take(4)[2] == 'o' && s.take(4)[3]
        == 'n');
    assert(at >= 4);
    let first = split(s, ',')[0];
    assert(first =~= s.take(at));
    assert(first.take(4) =~= s.take(4));
}

/// Cargo is always asked for JSON, so the run's units can be read off its
/// messages, whatever the run itself is asked to print.
pub proof fn cargo_is_always_asked_for_json(values: Seq<Seq<char>>)
    ensures
        asks_for_json(split(cargo_format(output_for(values)), ',')),
{
    reveal_strlit("json");
    reveal_strlit("json-render-diagnostics");
    reveal_strlit("json-diagnostic-short,json-render-diagnostics");
    let format = cargo_format(output_for(values));
    if !(output_for(values) is Json) {
        assert(format.take(4) =~= "json"@);
        lemma_first_piece_is_json(format);
    }
}

/// Every other option goes to cargo as written.
pub proof fn other_arguments_are_kept(args: Seq<ArgView>)
    requires
        forall|i: int|
            0 <= i < args.len() ==> (#[trigger] args[i]).text != "--message-format"@
                && !starts_with(args[i].text, "--message-format="@),
    ensures
        formats_taken(args).1 == args,
        formats_taken(args).0.len() == 0,
    decreases args.len(),
{
    if args.len() > 0 {
        let rest = args.skip(1);
        assert forall|i: int| 0 <= i < rest.len() implies (#[trigger] rest[i]).text
            != "--message-format"@ && !starts_with(rest[i].text, "--message-format="@) by {
            assert(rest[i] == args[i + 1]);
        }
        other_arguments_are_kept(rest);
        assert(seq![args[0]] + rest =~= args);
    }
}

/// An option reads the same whether its value is the next argument or stands
/// behind a `=`; what is read of the other arguments does not change.
pub proof fn an_option_reads_the_same_in_both_forms(
    name: Seq<char>,
    value: ArgView,
    first: ArgView,
    short: ArgView,
    rest: Seq<ArgView>,
)
    requires
        first.utf8 && first.text == name,
        short.utf8 && short.text == name + "="@ + value.text,
        value.utf8,
    ensures
        ({
            let apart = values_of(seq![first, value] + rest, name);
            let together = values_of(seq![short] + rest, name);
            let others = values_of(rest, name);
            &&& apart.len() == others.len() + 1 && together.len() == others.len() + 1
            &&& apart[0].text == value.text && together[0].text == value.text
            &&& apart[0].utf8 && together[0].utf8
            &&& apart.skip(1) == others && together.skip(1) == others
        }),
{
    let apart = seq![first, value] + rest;
    let together = seq![short] + rest;
    reveal_strlit("=");
    let prefix = name + "="@;
    assert(apart.skip(2) =~= rest);
    assert(together.skip(1) =~= rest);
    assert(short.text.len() > name.len());
    assert(short.text.take(prefix.len() as int) =~= prefix);
    assert(short.text.skip(name.len() as int + 1) =~= value.text);
    assert(values_of(apart, name).skip(1) =~= values_of(rest, name));
    assert(values_of(together, name).skip(1) =~= values_of(rest, name));
}

/// An argument that does not give the option is passed over, and where none
/// gives it there is no value.
pub proof fn other_arguments_give_no_value(first: ArgView, rest: Seq<ArgView>, name: Seq<char>)
    requires
        !first.utf8 || (first.text != name && !starts_with(first.text, name + "="@)),
    ensures
        values_of(seq![first] + rest, name) == values_of(rest, name),
        values_of(Seq::empty(), name).len() == 0,
{
    assert((seq![first] + rest).skip(1) =~= rest);
}

/// `--message-format` reads the same in both of its forms and is taken out
/// with its value; what is around it stays.
pub proof fn a_format_reads_the_same_in_both_forms(
    value: ArgView,
    first: ArgView,
    short: ArgView,
    rest: Seq<ArgView>,
)
    requires
        first.text == "--message-format"@,
        short.text == "--message-format="@ + value.text,
    ensures
        formats_taken(seq![first, value] + rest) == (
            seq![value.text] + formats_taken(rest).0,
            formats_taken(rest).1,
        ),
        formats_taken(seq![short] + rest) == formats_taken(seq![first, value] + rest),
{
    let apart = seq![first, value] + rest;
    let together = seq![short] + rest;
    reveal_strlit("--message-format=");
    reveal_strlit("--message-format");
    let prefix = "--message-format="@;
    assert(apart.skip(2) =~= rest);
    assert(together.skip(1) =~= rest);
    assert(short.text.take(prefix.len() as int) =~= prefix);
    assert(short.text.skip(prefix.len() as int) =~= value.text);
    assert(short.text.len() >= prefix.len());
}

/// An argument that is no `--message-format` stays in its place.
pub proof fn an_argument_before_a_format_stays(first: ArgView, rest: Seq<ArgView>)
    requires
        first.text != "--message-format"@,
        !starts_with(first.text, "--message-format="@),
    ensures
        formats_taken(seq![first] + rest).0 == formats_taken(rest).0,
        formats_taken(seq![first] + rest).1 == seq![first] + formats_taken(rest).1,
{
    assert((seq![first] + rest).skip(1) =~= rest);
}

/// What the formats ask for together: JSON, with all of them, when any starts
/// with `json`; else short output when any is `short`; else the text for a
/// person.
pub proof fn any_format_for_json_asks_for_it(values: Seq<Seq<char>>)
    requires
        forall|i: int| 0 <= i < values.len() ==> !(#[trigger] values[i]).contains(','),
    ensures
        output_for(values) is Json <==> exists|i: int|
            0 <= i < values.len() && starts_with(#[trigger] values[i], "json"@),
        output_for(values) is Short <==> values.contains("short"@) && !(exists|i: int|
            0 <= i < values.len() && starts_with(#[trigger] values[i], "json"@)),
        output_for(values) matches OutputView::Json(text) ==> split(text, ',') == values,
{
    reveal_strlit(",");
    reveal_strlit("json");
    reveal_strlit("short");
    assert(","@ =~= seq![',']);
    let together = joined(values, ","@);
    if values.len() > 0 {
        lemma_split_joined(values, ',');
    } else {
        assert(together =~= Seq::<char>::empty());
        assert(split(together, ',') =~= seq![Seq::<char>::empty()]);
        assert(!asks_for_json(split(together, ',')));
        assert(!split(together, ',').contains("short"@));
    }
}

/// What goes to cargo are the arguments behind the subcommand but for `--fix`,
/// and none else.
pub proof fn cargo_gets_every_argument_but_its_own(args: Seq<ArgView>, arg: ArgView)
    ensures
        passed_on(args).contains(arg) <==> !(arg.utf8 && arg.text == "--fix"@) && exists|i: int|
            0 <= i < args.len() && #[trigger] args[i] == arg && !(i == 0 && args[0].utf8
                && args[0].text == "mordant"@),
{
    let own = own_args(args);
    crate::judge::lemma_filtered(own, is_not_fix(), arg);
    if own.contains(arg) {
        let k = choose|k: int| 0 <= k < own.len() && own[k] == arg;
        if own.len() < args.len() {
            assert(args[k + 1] == arg);
        } else {
            assert(args[k] == arg);
        }
    }
    if exists|i: int|
        0 <= i < args.len() && #[trigger] args[i] == arg && !(i == 0 && args[0].utf8
            && args[0].text == "mordant"@) {
        let i = choose|i: int|
            0 <= i < args.len() && #[trigger] args[i] == arg && !(i == 0 && args[0].utf8
                && args[0].text == "mordant"@);
        if own.len() < args.len() {
            assert(own[i - 1] == arg);
        } else {
            assert(own[i] == arg);
        }
    }
}

/// The option decides over the variable, the variable over the terminal, and a
/// setting that says neither always nor never leaves it to the terminal.
pub proof fn the_option_decides_on_colour_first(
    color: Option<ValueView>,
    variable: Option<ValueView>,
    terminal: bool,
)
    ensures
        color matches Some(value) ==> in_colour(color, variable, terminal) == in_colour(
            color,
            None,
            terminal,
        ),
        color is None ==> in_colour(color, variable, terminal) == in_colour(
            variable,
            None,
            terminal,
        ),
        color matches Some(value) ==> (value.utf8 && value.text == "always"@ ==> in_colour(
            color,
            variable,
            terminal,
        )),
        color matches Some(value) ==> (value.utf8 && value.text == "never"@ ==> !in_colour(
            color,
            variable,
            terminal,
        )),
        color matches Some(value) ==> (!value.utf8 || (value.text != "always"@ && value.text
            != "never"@) ==> in_colour(color, variable, terminal) == terminal),
        color is None && variable is None ==> in_colour(color, variable, terminal) == terminal,
{
    reveal_strlit("always");
    reveal_strlit("never");
    assert("always"@.len() != "never"@.len());
}

/// Help is given when it is asked for, whatever else is; the version when help
/// is not; the list when neither is; and only else there is a run, which fixes
/// exactly when `--fix` is given.
pub proof fn a_run_is_what_asks_for_nothing_else(own: Seq<ArgView>, i: int)
    requires
        0 <= i < own.len(),
        own[i].utf8,
    ensures
        own[i].text == "-h"@ || own[i].text == "--help"@ ==> asked_for(own) == Command::Help,
        own[i].text == "-V"@ || own[i].text == "--version"@ ==> asked_for(own) == Command::Version
            || asked_for(own) == Command::Help,
        own[i].text == "--list"@ ==> !(asked_for(own) is Run),
        own[i].text == "--fix"@ && asked_for(own) is Run ==> asked_for(own) == (Command::Run {
            fix: true,
        }),
        asked_for(own) is Run ==> forall|j: int|
            0 <= j < own.len() && (#[trigger] own[j]).utf8 ==> own[j].text != "-h"@ && own[j].text
                != "--help"@ && own[j].text != "-V"@ && own[j].text != "--version"@ && own[j].text
                != "--list"@,
{
    assert(own[i].is_text(own[i].text));
    assert forall|j: int|
        asked_for(own) is Run && 0 <= j < own.len() && (#[trigger] own[j]).utf8 implies own[j].text
        != "-h"@ && own[j].text != "--help"@ && own[j].text != "-V"@ && own[j].text
        != "--version"@ && own[j].text != "--list"@ by {
        assert(own[j].is_text(own[j].text));
    }
}

} // verus!
