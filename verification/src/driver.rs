//! `mordant-driver`: what it is asked for, the arguments it compiles with,
//! the list of lints it prints, and the incremental directory it keeps.

use std::hash::{DefaultHasher, Hasher};

use vstd::prelude::*;
use vstd::std_specs::hash::*;
use vstd::string::*;
use vstd::utf8::encode_utf8;

use crate::number::{hexadecimal, hexadecimal_16, hexadecimal_tells_numbers_apart};
use crate::order::{
    is_text_before, sort, sorted, sorted_holds_the_same, sorted_is_in_order, text_before, Ordered,
};
use crate::paths::{
    a_file_lies_in_the_directory_it_is_joined_to, file_name, file_name_of, joined_path,
};
use crate::protocol::{LINTING_CFG, LIST_ARG};
use crate::text::{
    chars_of, concat, contains, has_prefix, joined, lemma_concat_first, lemma_joined_first,
    lemma_lines_first, lines, same, starts_with, strip_prefix, viewed, views,
};

verus! {

/// What `--print`, in the argument at `i`, asks the compiler to print.
pub open spec fn printed_by(args: Seq<Seq<char>>, i: int) -> Option<Seq<char>> {
    let rest = args[i].skip("--print"@.len() as int);
    if !starts_with(args[i], "--print"@) {
        None
    } else if rest.len() == 0 {
        if i + 1 < args.len() {
            Some(args[i + 1])
        } else {
            None
        }
    } else if rest[0] == '=' {
        Some(rest.skip(1))
    } else {
        None
    }
}

/// Whether the argument at `i` asks about the compiler.
pub open spec fn asks_about_compiler(args: Seq<Seq<char>>, i: int) -> bool {
    args[i] == "-vV"@ || (printed_by(args, i) matches Some(what) && what
        != "crate-root-lint-levels"@)
}

/// Whether the arguments ask about the compiler.
pub open spec fn is_query(args: Seq<Seq<char>>) -> bool {
    exists|i: int| 0 <= i < args.len() && #[trigger] asks_about_compiler(args, i)
}

/// Cargo asks the wrapper for `-vV` and `--print` output to learn about the
/// compiler; those compile nothing, so no lint needs registering, and a bad
/// configuration must not end up in the answers cargo caches. The exception is
/// `--print crate-root-lint-levels`, whose answer depends on which lints are
/// registered.
pub fn is_info_query(args: &Vec<String>) -> (r: bool)
    ensures
        r == is_query(views(args@)),
{
    let ghost all = views(args@);
    let mut i: usize = 0;
    while i < args.len()
        invariant
            all == views(args@),
            i <= args@.len(),
            forall|j: int| 0 <= j < i ==> !#[trigger] asks_about_compiler(all, j),
        decreases args@.len() - i,
    {
        let arg = args[i].as_str();
        assert(all[i as int] == arg@);
        let printed = match strip_prefix(arg, "--print") {
            Some(rest) => {
                let n = rest.as_str().unicode_len();
                if n == 0 {
                    if args.len() - i > 1 {
                        assert(all[i + 1] == args@[i + 1]@);
                        Some(args[i + 1].clone())
                    } else {
                        None
                    }
                } else if rest.as_str().get_char(0) == '=' {
                    assert(rest@.subrange(1, n as int) =~= rest@.skip(1));
                    Some(rest.as_str().substring_char(1, n).to_owned())
                } else {
                    None
                }
            },
            None => None,
        };
        let asks = match printed {
            Some(what) => !same(what.as_str(), "crate-root-lint-levels"),
            None => false,
        };
        if same(arg, "-vV") || asks {
            assert(asks_about_compiler(all, i as int));
            return true;
        }
        assert(!asks_about_compiler(all, i as int));
        i = i + 1;
    }
    false
}

/// What the driver is asked to do.
pub enum Request {
    /// Print the lints.
    List,
    /// Run the compiler with these arguments and no lint.
    Plain(Vec<String>),
    /// Compile with these arguments and the lints.
    Lint(Vec<String>),
}

/// Where the last `.` stands in `s`, or the length of `s` if there is none.
pub open spec fn last_dot(s: Seq<char>) -> int
    decreases s.len(),
{
    if s.len() == 0 {
        0
    } else if s.last() == '.' {
        s.len() - 1
    } else {
        let at = last_dot(s.drop_last());
        if at == s.len() - 1 {
            s.len() as int
        } else {
            at
        }
    }
}

/// A file name without its extension. A name that starts with its only `.` has
/// none.
pub open spec fn stem_of(name: Seq<char>) -> Seq<char> {
    let at = last_dot(name);
    if at == 0 {
        name
    } else {
        name.take(at)
    }
}

fn last_dot_in(chars: &Vec<char>) -> (at: usize)
    ensures
        at == last_dot(chars@),
        at <= chars@.len(),
{
    let n = chars.len();
    let mut at: usize = n;
    let mut i: usize = 0;
    assert(chars@.take(0) =~= Seq::<char>::empty());
    let mut found = false;
    while i < n
        invariant
            n == chars@.len(),
            i <= n,
            found ==> at < i,
            found ==> at == last_dot(chars@.take(i as int)),
            !found ==> at == n && last_dot(chars@.take(i as int)) == i,
        decreases n - i,
    {
        assert(chars@.take(i + 1).drop_last() =~= chars@.take(i as int));
        assert(chars@.take(i + 1).last() == chars@[i as int]);
        if chars[i] == '.' {
            at = i;
            found = true;
        }
        i = i + 1;
    }
    assert(chars@.take(i as int) =~= chars@);
    at
}

fn stem(name: String) -> (out: String)
    ensures
        out@ == stem_of(name@),
{
    let chars = chars_of(name.as_str());
    let at = last_dot_in(&chars);
    if at == 0 {
        name
    } else {
        assert(name@.subrange(0, at as int) =~= name@.take(at as int));
        name.as_str().substring_char(0, at).to_owned()
    }
}

/// Whether Unicode counts the character as white space.
pub open spec fn whitespace(c: char) -> bool {
    ||| '\u{9}' <= c <= '\u{d}'
    ||| c == ' '
    ||| c == '\u{85}'
    ||| c == '\u{a0}'
    ||| c == '\u{1680}'
    ||| '\u{2000}' <= c <= '\u{200a}'
    ||| '\u{2028}' <= c <= '\u{2029}'
    ||| c == '\u{202f}'
    ||| c == '\u{205f}'
    ||| c == '\u{3000}'
}

/// Whether Unicode counts the character as white space.
pub fn is_whitespace(c: char) -> (r: bool)
    ensures
        r == whitespace(c),
{
    match c {
        '\u{9}'..='\u{d}' | ' ' | '\u{85}' | '\u{a0}' => true,
        '\u{1680}' | '\u{2000}'..='\u{200a}' => true,
        '\u{2028}'..='\u{2029}' | '\u{202f}' | '\u{205f}' | '\u{3000}' => true,
        _ => false,
    }
}

/// Where the first whitespace stands in `s`, or the length of `s`.
pub open spec fn first_space(s: Seq<char>) -> int
    decreases s.len(),
{
    if s.len() == 0 || whitespace(s[0]) {
        0
    } else {
        1 + first_space(s.skip(1))
    }
}

/// The words of `s`, between its whitespace.
pub open spec fn words(s: Seq<char>) -> Seq<Seq<char>>
    decreases s.len(),
    via words_decreases
{
    if s.len() == 0 {
        Seq::empty()
    } else if whitespace(s[0]) {
        words(s.skip(1))
    } else {
        seq![s.take(first_space(s))] + words(s.skip(first_space(s)))
    }
}

#[via_fn]
proof fn words_decreases(s: Seq<char>) {
    lemma_first_space(s);
}

proof fn lemma_first_space(s: Seq<char>)
    ensures
        0 <= first_space(s) <= s.len(),
        s.len() > 0 && !whitespace(s[0]) ==> first_space(s) > 0,
    decreases s.len(),
{
    if s.len() > 0 && !whitespace(s[0]) {
        lemma_first_space(s.skip(1));
    }
}

/// The words of `s`, between its whitespace.
pub fn split_words(s: &str) -> (out: Vec<String>)
    ensures
        views(out@) == words(s@),
{
    let chars = chars_of(s);
    let mut out: Vec<String> = Vec::new();
    let mut i: usize = 0;
    assert(s@.skip(0) =~= s@);
    assert(views(out@) + words(s@) =~= words(s@));
    while i < chars.len()
        invariant
            chars@ == s@,
            i <= chars@.len(),
            views(out@) + words(s@.skip(i as int)) == words(s@),
        decreases chars@.len() - i,
    {
        let ghost rest = s@.skip(i as int);
        let ghost before = views(out@);
        assert(rest.skip(1) =~= s@.skip(i + 1));
        if is_whitespace(chars[i]) {
            i = i + 1;
        } else {
            let mut end: usize = i;
            assert(s@.skip(end as int) =~= rest);
            while end < chars.len() && !is_whitespace(chars[end])
                invariant
                    chars@ == s@,
                    i <= end <= chars@.len(),
                    rest == s@.skip(i as int),
                    first_space(rest) == end - i + first_space(s@.skip(end as int)),
                decreases chars@.len() - end,
            {
                assert(s@.skip(end as int).skip(1) =~= s@.skip(end + 1));
                end = end + 1;
            }
            proof {
                lemma_first_space(rest);
            }
            let word = s.substring_char(i, end).to_owned();
            assert(word@ =~= rest.take(end - i));
            out.push(word);
            assert(views(out@) =~= before.push(word@));
            assert(rest.skip(end - i) =~= s@.skip(end as int));
            assert(before + (seq![word@] + words(s@.skip(end as int))) =~= views(out@) + words(
                s@.skip(end as int),
            ));
            i = end;
        }
    }
    assert(words(s@.skip(i as int)) =~= Seq::<Seq<char>>::empty());
    assert(views(out@) + Seq::<Seq<char>>::empty() =~= views(out@));
    out
}

/// Whether a path is the compiler's.
pub open spec fn is_compiler(path: Seq<char>) -> bool {
    file_name(path) matches Some(name) && stem_of(name) == "rustc"@
}

fn names_compiler(path: &str) -> (r: bool)
    ensures
        r == is_compiler(path@),
{
    match file_name_of(path) {
        Some(name) => same(stem(name).as_str(), "rustc"),
        None => false,
    }
}

/// The arguments without the compiler's path: a workspace wrapper gets that
/// first, and run as the compiler itself, it does not.
pub open spec fn compiler_args(args: Seq<Seq<char>>) -> Seq<Seq<char>> {
    if args.len() > 1 && is_compiler(args[1]) {
        args.remove(1)
    } else {
        args
    }
}

/// The arguments to compile with: those given, the cfg that is set while the
/// lints run, and the extra flags. A test build is compiled only to see what
/// the tests use, so its warnings are capped.
pub open spec fn lint_args(args: Seq<Seq<char>>, flags: Option<Seq<char>>) -> Seq<Seq<char>> {
    args + seq![LINTING_CFG@] + (if args.contains("--test"@) {
        seq!["--cap-lints"@, "allow"@]
    } else {
        Seq::empty()
    }) + (match flags {
        Some(flags) => words(flags),
        None => Seq::empty(),
    })
}

/// What the driver is asked to do. `flags` is the value of the variable that
/// adds flags for the linted crates.
pub fn requested(args: Vec<String>, flags: Option<&str>) -> (request: Request)
    ensures
        ({
            let given = views(args@);
            let own = compiler_args(given);
            match request {
                Request::List => given.len() == 2 && given[1] == LIST_ARG@,
                Request::Plain(passed) => {
                    &&& !(given.len() == 2 && given[1] == LIST_ARG@)
                    &&& is_query(own)
                    &&& views(passed@) == own
                },
                Request::Lint(passed) => {
                    &&& !(given.len() == 2 && given[1] == LIST_ARG@)
                    &&& !is_query(own)
                    &&& views(passed@) == lint_args(
                        own,
                        match flags {
                            Some(flags) => Some(flags@),
                            None => None,
                        },
                    )
                },
            }
        }),
{
    let ghost given = views(args@);
    assert(args@.len() > 1 ==> given[1] == args@[1]@);
    if args.len() == 2 && same(args[1].as_str(), LIST_ARG) {
        return Request::List;
    }
    let mut args = args;
    if args.len() > 1 && names_compiler(args[1].as_str()) {
        args.remove(1);
        assert(views(args@) =~= given.remove(1));
    }
    let ghost own = views(args@);
    if is_info_query(&args) {
        return Request::Plain(args);
    }
    let test = contains(&args, "--test");
    args.push(LINTING_CFG.to_owned());
    assert(views(args@) =~= own + seq![LINTING_CFG@]);
    let ghost part = views(args@);
    if test {
        args.push("--cap-lints".to_owned());
        args.push("allow".to_owned());
        assert(views(args@) =~= part + seq!["--cap-lints"@, "allow"@]);
    } else {
        assert(views(args@) =~= part + Seq::<Seq<char>>::empty());
    }
    let ghost part = views(args@);
    match flags {
        Some(flags) => {
            let mut more = split_words(flags);
            let ghost extra = views(more@);
            args.append(&mut more);
            assert(views(args@) =~= part + extra);
        },
        None => {
            assert(views(args@) =~= part + Seq::<Seq<char>>::empty());
        },
    }
    Request::Lint(args)
}

/// A lint, as the list shows it.
pub struct Lint {
    /// Its name as it is declared, which the list is sorted by.
    pub declared: String,
    pub name: String,
    pub level: String,
    pub desc: String,
}

/// What a [`Lint`] is.
pub struct LintView {
    pub declared: Seq<char>,
    pub name: Seq<char>,
    pub level: Seq<char>,
    pub desc: Seq<char>,
}

impl View for Lint {
    type V = LintView;

    open spec fn view(&self) -> LintView {
        LintView {
            declared: self.declared@,
            name: self.name@,
            level: self.level@,
            desc: self.desc@,
        }
    }
}

impl Ordered for Lint {
    open spec fn before(a: LintView, b: LintView) -> bool {
        text_before(a.declared, b.declared)
    }

    proof fn not_before_transitive(a: LintView, b: LintView, c: LintView) {
        String::not_before_transitive(a.declared, b.declared, c.declared);
    }

    proof fn before_asymmetric(a: LintView, b: LintView) {
        String::before_asymmetric(a.declared, b.declared);
    }

    fn is_before(&self, other: &Self) -> (r: bool) {
        is_text_before(self.declared.as_str(), other.declared.as_str())
    }
}

/// The length of the longest text, zero if there is none.
pub open spec fn longest(texts: Seq<Seq<char>>) -> nat
    decreases texts.len(),
{
    if texts.len() == 0 {
        0
    } else {
        let before = longest(texts.drop_last());
        if texts.last().len() > before {
            texts.last().len()
        } else {
            before
        }
    }
}

/// `n` spaces.
pub open spec fn spaces(n: int) -> Seq<char> {
    Seq::new(
        if n > 0 {
            n as nat
        } else {
            0
        },
        |i: int| ' ',
    )
}

/// `text` with spaces behind it up to `width`.
pub open spec fn padded(text: Seq<char>, width: nat) -> Seq<char> {
    text + spaces(width - text.len())
}

/// A lint's line in the list.
pub open spec fn lint_line(lint: LintView, names: nat, levels: nat) -> Seq<char> {
    "    "@ + padded(lint.name, names) + "    "@ + padded(lint.level, levels) + "    "@ + lint.desc
        + "\n"@
}

/// The list of lints: a heading, and one indented `name  level  description`
/// line per lint, by name and in columns.
pub open spec fn lint_list(lints: Seq<LintView>) -> Seq<char> {
    let ordered = sorted::<Lint>(lints);
    let names = longest(ordered.map_values(|l: LintView| l.declared));
    let levels = longest(ordered.map_values(|l: LintView| l.level));
    "mordant\n"@ + concat(ordered.map_values(|l: LintView| lint_line(l, names, levels)))
}

fn pad(text: &str, width: usize) -> (out: String)
    ensures
        out@ == padded(text@, width as nat),
{
    let mut out = text.to_owned();
    let n = text.unicode_len();
    let mut i: usize = n;
    assert(out@ =~= text@ + spaces(0));
    proof {
        reveal_strlit(" ");
    }
    while i < width
        invariant
            n == text@.len(),
            n <= i,
            i <= width || i == n,
            " "@ == seq![' '],
            out@ == text@ + spaces(i - n),
        decreases width - i,
    {
        let ghost before = out@;
        out.append(" ");
        assert(out@ =~= text@ + spaces(i + 1 - n));
        i = i + 1;
    }
    assert(out@ =~= padded(text@, width as nat));
    out
}

/// The list of lints.
pub fn print_lints(lints: Vec<Lint>) -> (text: String)
    ensures
        text@ == lint_list(viewed(lints@)),
{
    let lints = sort(lints);
    let ghost all = viewed(lints@);
    let ghost declared = all.map_values(|l: LintView| l.declared);
    let ghost given = all.map_values(|l: LintView| l.level);
    let mut names: usize = 0;
    let mut levels: usize = 0;
    let mut i: usize = 0;
    while i < lints.len()
        invariant
            all == viewed(lints@),
            declared == all.map_values(|l: LintView| l.declared),
            given == all.map_values(|l: LintView| l.level),
            i <= lints@.len(),
            names == longest(declared.take(i as int)),
            levels == longest(given.take(i as int)),
        decreases lints@.len() - i,
    {
        assert(declared.take(i + 1).drop_last() =~= declared.take(i as int));
        assert(given.take(i + 1).drop_last() =~= given.take(i as int));
        assert(all[i as int] == lints@[i as int]@);
        let name = lints[i].declared.as_str().unicode_len();
        let level = lints[i].level.as_str().unicode_len();
        if name > names {
            names = name;
        }
        if level > levels {
            levels = level;
        }
        i = i + 1;
    }
    assert(declared.take(i as int) =~= declared);
    assert(given.take(i as int) =~= given);
    let ghost texts = all.map_values(|l: LintView| lint_line(l, names as nat, levels as nat));
    let mut text = "mordant\n".to_owned();
    let ghost start = text@;
    let mut j: usize = 0;
    assert(text@ =~= start + concat(texts.take(0)));
    while j < lints.len()
        invariant
            all == viewed(lints@),
            texts == all.map_values(|l: LintView| lint_line(l, names as nat, levels as nat)),
            j <= lints@.len(),
            text@ == start + concat(texts.take(j as int)),
        decreases lints@.len() - j,
    {
        let ghost before = text@;
        let lint = &lints[j];
        assert(all[j as int] == lint@);
        let name = pad(lint.name.as_str(), names);
        let level = pad(lint.level.as_str(), levels);
        text.append("    ");
        text.append(name.as_str());
        text.append("    ");
        text.append(level.as_str());
        text.append("    ");
        text.append(lint.desc.as_str());
        text.append("\n");
        assert(texts[j as int] == lint_line(lint@, names as nat, levels as nat));
        assert(text@ =~= before + texts[j as int]);
        assert(texts.take(j + 1).drop_last() =~= texts.take(j as int));
        assert(texts.take(j + 1).last() == texts[j as int]);
        assert(before + texts[j as int] =~= start + concat(texts.take(j + 1)));
        j = j + 1;
    }
    assert(texts.take(j as int) =~= texts);
    text
}

/// Identifies a build of the driver by `stamp`, which every rebuild and
/// reinstall changes: its size and modification time. A build whose stamp
/// cannot be read gets one fixed id, which still keeps its cache apart from
/// the compiler's own.
pub fn build_id(stamp: Option<&str>) -> (id: u64)
    ensures
        id == DefaultHasher::spec_finish(
            match stamp {
                Some(stamp) => seq![encode_utf8(stamp@)],
                None => Seq::empty(),
            },
        ),
{
    let mut hasher = DefaultHasher::new();
    match stamp {
        Some(stamp) => {
            hasher.write(stamp.as_bytes());
            assert(hasher@ =~= seq![encode_utf8(stamp@)]);
        },
        None => {
            assert(hasher@ =~= Seq::<Seq<u8>>::empty());
        },
    }
    hasher.finish()
}

/// The directory that a build of the driver keeps its incremental cache in,
/// under cargo's for the crate.
pub open spec fn own_cache(id: u64) -> Seq<char> {
    "mordant-driver-"@ + hexadecimal(id as nat, 16)
}

/// The directory that a build of the driver keeps its incremental cache in.
/// The lints are part of what the cache records, and nothing in the compiler's
/// dependency graph says they changed when the driver did.
pub fn incremental_dir(id: u64) -> (name: String)
    ensures
        name@ == own_cache(id),
{
    let id = hexadecimal_16(id);
    "mordant-driver-".to_owned().concat(id.as_str())
}

/// Whether a directory beside this build's is another build's, which is
/// removed as this one starts.
pub fn is_stale(name: &str, id: u64) -> (r: bool)
    ensures
        r == (starts_with(name@, "mordant-driver-"@) && name@ != own_cache(id)),
{
    let own = incremental_dir(id);
    has_prefix(name, "mordant-driver-") && !same(name, own.as_str())
}

/// `-vV` anywhere is a question about the compiler, and so is `--print`, in
/// either of its forms, of anything but the lint levels.
pub proof fn a_question_about_the_compiler_is_one_anywhere(
    args: Seq<Seq<char>>,
    i: int,
    what: Seq<char>,
)
    requires
        0 <= i < args.len(),
        args[i] == "-vV"@ || (what != "crate-root-lint-levels"@ && (args[i] == "--print="@ + what
            || (args[i] == "--print"@ && i + 1 < args.len() && args[i + 1] == what))),
    ensures
        is_query(args),
{
    reveal_strlit("--print");
    reveal_strlit("--print=");
    if args[i] != "-vV"@ {
        let option = "--print"@;
        assert(args[i].take(option.len() as int) =~= option);
        if args[i] == "--print="@ + what {
            assert(args[i].skip(option.len() as int).skip(1) =~= what);
            assert(args[i].skip(option.len() as int)[0] == '=');
        }
    }
    assert(asks_about_compiler(args, i));
}

/// Arguments without `-vV` that print nothing but the lint levels are no
/// question.
pub proof fn a_compilation_is_no_question(args: Seq<Seq<char>>)
    requires
        forall|i: int|
            0 <= i < args.len() ==> #[trigger] args[i] != "-vV"@ && (starts_with(
                args[i],
                "--print"@,
            ) ==> args[i] == "--print=crate-root-lint-levels"@ || (args[i] == "--print"@ && i + 1
                < args.len() && args[i + 1] == "crate-root-lint-levels"@)),
    ensures
        !is_query(args),
{
    reveal_strlit("--print");
    reveal_strlit("--print=crate-root-lint-levels");
    reveal_strlit("crate-root-lint-levels");
    assert forall|i: int| 0 <= i < args.len() implies !#[trigger] asks_about_compiler(args, i) by {
        assert(args[i] != "-vV"@);
        if args[i] == "--print=crate-root-lint-levels"@ {
            assert(args[i].skip("--print"@.len() as int).skip(1) =~= "crate-root-lint-levels"@);
        }
    }
}

/// A file name is its stem, a `.` and an extension, or it has no extension.
pub proof fn a_stem_is_the_name_without_its_extension(stem: Seq<char>, extension: Seq<char>)
    requires
        stem.len() > 0,
        !extension.contains('.'),
    ensures
        stem_of(stem.push('.') + extension) == stem,
        stem_of(extension) == extension,
{
    let name = stem.push('.') + extension;
    lemma_last_dot(stem, extension);
    assert(name.take(stem.len() as int) =~= stem);
    lemma_no_dot(extension);
    assert(extension.take(extension.len() as int) =~= extension);
}

proof fn lemma_last_dot(stem: Seq<char>, extension: Seq<char>)
    requires
        !extension.contains('.'),
    ensures
        last_dot(stem.push('.') + extension) == stem.len(),
    decreases extension.len(),
{
    let name = stem.push('.') + extension;
    if extension.len() > 0 {
        assert(extension.contains(extension[extension.len() - 1]));
        let less = extension.drop_last();
        assert(!less.contains('.')) by {
            if less.contains('.') {
                let k = choose|k: int| 0 <= k < less.len() && less[k] == '.';
                assert(extension[k] == '.');
            }
        }
        lemma_last_dot(stem, less);
        assert(name.drop_last() =~= stem.push('.') + less);
    } else {
        assert(name =~= stem.push('.'));
    }
}

proof fn lemma_no_dot(s: Seq<char>)
    requires
        !s.contains('.'),
    ensures
        last_dot(s) == s.len(),
    decreases s.len(),
{
    if s.len() > 0 {
        assert(s.contains(s[s.len() - 1]));
        let less = s.drop_last();
        assert(!less.contains('.')) by {
            if less.contains('.') {
                let k = choose|k: int| 0 <= k < less.len() && less[k] == '.';
                assert(s[k] == '.');
            }
        }
        lemma_no_dot(less);
    }
}

/// A wrapper's arguments lose the compiler's path, in whatever directory the
/// compiler is and whatever extension it has, and nothing else.
pub proof fn the_compilers_path_is_dropped(
    wrapper: Seq<char>,
    dir: Seq<char>,
    extension: Seq<char>,
    rest: Seq<Seq<char>>,
)
    requires
        !extension.contains('.'),
        !extension.contains('/'),
    ensures
        compiler_args(seq![wrapper, joined_path(dir, "rustc"@)] + rest) == seq![wrapper] + rest,
        compiler_args(
            seq![wrapper, joined_path(dir, "rustc"@.push('.') + extension)] + rest,
        ) == seq![wrapper] + rest,
{
    reveal_strlit("rustc");
    reveal_strlit(".");
    reveal_strlit("..");
    let name = "rustc"@.push('.') + extension;
    assert(!name.contains('/')) by {
        if name.contains('/') {
            let k = choose|k: int| 0 <= k < name.len() && name[k] == '/';
            if k < 5 {
                assert("rustc"@[k] == '/');
            } else if k > 5 {
                assert(extension[k - 6] == '/');
            }
        }
    }
    assert(!"rustc"@.contains('/') && !"rustc"@.contains('.'));
    assert("rustc"@.len() == 5);
    a_file_lies_in_the_directory_it_is_joined_to(dir, "rustc"@);
    a_file_lies_in_the_directory_it_is_joined_to(dir, name);
    a_stem_is_the_name_without_its_extension("rustc"@, extension);
    a_stem_is_the_name_without_its_extension("rustc"@, "rustc"@);
    assert((seq![wrapper, joined_path(dir, "rustc"@)] + rest).remove(1) =~= seq![wrapper] + rest);
    assert((seq![wrapper, joined_path(dir, name)] + rest).remove(1) =~= seq![wrapper] + rest);
}

/// Whatever is not the compiler's path stays among the arguments.
pub proof fn other_first_arguments_stay(args: Seq<Seq<char>>)
    requires
        args.len() > 1 ==> (file_name(args[1]) is None || stem_of(file_name(args[1])->0)
            != "rustc"@),
    ensures
        compiler_args(args) == args,
{
}

/// A crate is linted with its own arguments, in their order, then the cfg, for
/// a test build the cap on its warnings, and the extra flags last.
pub proof fn a_crate_is_linted_with_its_own_arguments_first(
    args: Seq<Seq<char>>,
    flags: Seq<char>,
)
    ensures
        args.is_prefix_of(lint_args(args, Some(flags))),
        lint_args(args, Some(flags))[args.len() as int] == LINTING_CFG@,
        lint_args(args, Some(flags)).skip(lint_args(args, None).len() as int) == words(flags),
        lint_args(args, None).len() == args.len() + 1 + if args.contains("--test"@) {
            2int
        } else {
            0int
        },
        args.contains("--test"@) ==> lint_args(args, None)[1int + args.len()] == "--cap-lints"@
            && lint_args(args, None)[2int + args.len()] == "allow"@,
{
    let all = lint_args(args, Some(flags));
    let own = lint_args(args, None);
    assert(all =~= own + words(flags));
    assert(all.skip(own.len() as int) =~= words(flags));
    assert(args =~= all.take(args.len() as int));
}

/// Words written with a space between them are read as those words.
pub proof fn words_with_spaces_between_read_back(list: Seq<Seq<char>>)
    requires
        forall|i: int|
            0 <= i < list.len() ==> (#[trigger] list[i]).len() > 0 && forall|k: int|
                0 <= k < list[i].len() ==> !whitespace(#[trigger] list[i][k]),
    ensures
        words(joined(list, seq![' '])) == list,
    decreases list.len(),
{
    let s = joined(list, seq![' ']);
    if list.len() == 0 {
        assert(words(s) =~= list);
    } else if list.len() == 1 {
        let word = list[0];
        assert(s =~= word);
        lemma_first_space_is(word, Seq::empty());
        assert(word + Seq::<char>::empty() =~= word);
        assert(word.take(word.len() as int) =~= word);
        assert(words(word.skip(word.len() as int)) =~= Seq::<Seq<char>>::empty());
        assert(words(s) =~= list);
    } else {
        let word = list[0];
        let rest = list.skip(1);
        assert forall|i: int| 0 <= i < rest.len() implies (#[trigger] rest[i]).len() > 0 && forall|
            k: int,
        |
            0 <= k < rest[i].len() ==> !whitespace(#[trigger] rest[i][k]) by {
            assert(rest[i] == list[i + 1]);
        }
        words_with_spaces_between_read_back(rest);
        lemma_joined_first(list, seq![' ']);
        let more = joined(rest, seq![' ']);
        let after = seq![' '] + more;
        assert(s =~= word + after);
        lemma_first_space_is(word, after);
        assert(!whitespace(word[0]));
        assert(s[0] == word[0]);
        assert(s.take(word.len() as int) =~= word);
        assert(s.skip(word.len() as int) =~= after);
        assert(after.skip(1) =~= more);
        assert(words(after) == words(more));
        assert(words(s) =~= seq![word] + rest);
        assert(seq![word] + rest =~= list);
    }
}

proof fn lemma_first_space_is(word: Seq<char>, after: Seq<char>)
    requires
        forall|k: int| 0 <= k < word.len() ==> !whitespace(#[trigger] word[k]),
        after.len() > 0 ==> whitespace(after[0]),
    ensures
        first_space(word + after) == word.len(),
    decreases word.len(),
{
    let s = word + after;
    if word.len() > 0 {
        let less = word.skip(1);
        assert(!whitespace(word[0]));
        assert forall|k: int| 0 <= k < less.len() implies !whitespace(#[trigger] less[k]) by {
            assert(!whitespace(word[k + 1]));
        }
        lemma_first_space_is(less, after);
        assert(s.skip(1) =~= less + after);
    } else {
        assert(s =~= after);
    }
}

/// No word is empty or holds white space.
pub proof fn no_word_holds_white_space(s: Seq<char>)
    ensures
        forall|i: int| 0 <= i < words(s).len() ==> (#[trigger] words(s)[i]).len() > 0,
        forall|i: int, k: int|
            0 <= i < words(s).len() && 0 <= k < words(s)[i].len() ==> !whitespace(
                #[trigger] words(s)[i][k],
            ),
    decreases s.len(),
{
    lemma_first_space(s);
    if s.len() == 0 {
        assert(words(s).len() == 0);
    } else if whitespace(s[0]) {
        no_word_holds_white_space(s.skip(1));
        assert(words(s) == words(s.skip(1)));
    } else {
        let at = first_space(s);
        no_word_holds_white_space(s.skip(at));
        lemma_before_first_space(s);
        let rest = words(s.skip(at));
        assert(words(s) =~= seq![s.take(at)] + rest);
        assert forall|i: int, k: int|
            0 <= i < words(s).len() && 0 <= k < words(s)[i].len() implies !whitespace(
            #[trigger] words(s)[i][k],
        ) by {
            if i > 0 {
                assert(words(s)[i] == rest[i - 1]);
                assert(!whitespace(rest[i - 1][k]));
            }
        }
        assert forall|i: int| 0 <= i < words(s).len() implies (#[trigger] words(s)[i]).len() > 0 by {
            if i > 0 {
                assert(words(s)[i] == rest[i - 1]);
            }
        }
    }
}

proof fn lemma_before_first_space(s: Seq<char>)
    ensures
        forall|k: int| 0 <= k < first_space(s) ==> !whitespace(#[trigger] s[k]),
    decreases s.len(),
{
    lemma_first_space(s);
    if s.len() > 0 && !whitespace(s[0]) {
        lemma_before_first_space(s.skip(1));
        assert forall|k: int| 0 <= k < first_space(s) implies !whitespace(#[trigger] s[k]) by {
            if k > 0 {
                assert(s.skip(1)[k - 1] == s[k]);
            }
        }
    }
}

/// The longest of some texts is one of them, and none is longer.
pub proof fn no_text_is_longer_than_the_longest(texts: Seq<Seq<char>>)
    ensures
        forall|i: int| 0 <= i < texts.len() ==> (#[trigger] texts[i]).len() <= longest(texts),
        texts.len() > 0 ==> exists|i: int|
            0 <= i < texts.len() && (#[trigger] texts[i]).len() == longest(texts),
    decreases texts.len(),
{
    if texts.len() > 0 {
        let front = texts.drop_last();
        no_text_is_longer_than_the_longest(front);
        assert forall|i: int| 0 <= i < texts.len() implies (#[trigger] texts[i]).len() <= longest(
            texts,
        ) by {
            if i < front.len() {
                assert(front[i] == texts[i]);
            }
        }
        if texts.last().len() > longest(front) || front.len() == 0 {
            assert(texts[texts.len() - 1].len() == longest(texts));
        } else {
            let i = choose|i: int|
                0 <= i < front.len() && (#[trigger] front[i]).len() == longest(front);
            assert(texts[i].len() == longest(texts));
        }
    }
}

/// In the list of lints every lint has a line of its own, below the heading
/// and by the name it is declared under; the levels start in one column, and
/// so do the descriptions.
pub proof fn every_lint_has_its_line(lints: Seq<LintView>)
    requires
        forall|i: int|
            0 <= i < lints.len() ==> !(#[trigger] lints[i]).name.contains('\n')
                && !lints[i].level.contains('\n') && !lints[i].desc.contains('\n')
                && lints[i].name.len() == lints[i].declared.len() && lints[i].desc.len() > 0
                && lints[i].desc.last() != '\r',
    ensures
        ({
            let ordered = sorted::<Lint>(lints);
            let read = lines(lint_list(lints));
            let names = longest(ordered.map_values(|l: LintView| l.declared));
            let levels = longest(ordered.map_values(|l: LintView| l.level));
            &&& ordered.to_multiset() == lints.to_multiset()
            &&& read.len() == lints.len() + 1
            &&& read[0] == "mordant"@
            &&& forall|i: int|
                #![trigger ordered[i]]
                0 <= i < ordered.len() ==> {
                    let line = read[i + 1];
                    let lint = ordered[i];
                    &&& line.subrange(4, 4int + lint.name.len()) == lint.name
                    &&& line.subrange(8int + names, 8int + names + lint.level.len()) == lint.level
                    &&& line.skip(12int + names + levels) == lint.desc
                }
            &&& forall|i: int, j: int|
                0 <= i < j < ordered.len() ==> !text_before(
                    (#[trigger] ordered[j]).declared,
                    (#[trigger] ordered[i]).declared,
                )
        }),
{
    let ordered = sorted::<Lint>(lints);
    let names = longest(ordered.map_values(|l: LintView| l.declared));
    let levels = longest(ordered.map_values(|l: LintView| l.level));
    sorted_is_in_order::<Lint>(lints);
    no_text_is_longer_than_the_longest(ordered.map_values(|l: LintView| l.declared));
    no_text_is_longer_than_the_longest(ordered.map_values(|l: LintView| l.level));
    assert forall|i: int| 0 <= i < ordered.len() implies is_plain_lint(
        #[trigger] ordered[i],
        names,
        levels,
    ) by {
        assert(ordered.contains(ordered[i]));
        sorted_holds_the_same::<Lint>(lints, ordered[i]);
        let k = choose|k: int| 0 <= k < lints.len() && lints[k] == ordered[i];
        assert(!lints[k].name.contains('\n'));
        assert(ordered.map_values(|l: LintView| l.declared)[i].len() <= names);
        assert(ordered.map_values(|l: LintView| l.level)[i].len() <= levels);
    }
    reveal_strlit("mordant\n");
    reveal_strlit("mordant");
    let heading = "mordant"@;
    assert("mordant\n"@ =~= heading.push('\n'));
    lemma_lint_lines(ordered, names, levels);
    let body = concat(ordered.map_values(|l: LintView| lint_line(l, names, levels)));
    assert(!heading.contains('\n'));
    lemma_lines_first(heading, body);
    assert(lint_list(lints) =~= heading.push('\n') + body);
    assert forall|i: int, j: int| 0 <= i < j < ordered.len() implies !text_before(
        (#[trigger] ordered[j]).declared,
        (#[trigger] ordered[i]).declared,
    ) by {
        assert(!Lint::before(ordered[j], ordered[i]));
    }
    let read = lines(lint_list(lints));
    assert forall|i: int|
        #![trigger ordered[i]]
        0 <= i < ordered.len() implies {
        let line = read[i + 1];
        let lint = ordered[i];
        &&& line.subrange(4, 4int + lint.name.len()) == lint.name
        &&& line.subrange(8int + names, 8int + names + lint.level.len()) == lint.level
        &&& line.skip(12int + names + levels) == lint.desc
    } by {
        assert(is_plain_lint(ordered[i], names, levels));
        assert(read[i + 1] == lines(body)[i]);
        lemma_lint_columns(ordered[i], names, levels);
    }
}

spec fn is_plain_lint(lint: LintView, names: nat, levels: nat) -> bool {
    &&& !lint.name.contains('\n')
    &&& !lint.level.contains('\n')
    &&& !lint.desc.contains('\n')
    &&& lint.name.len() <= names
    &&& lint.level.len() <= levels
    &&& lint.desc.len() > 0
    &&& lint.desc.last() != '\r'
}

spec fn bare_lint_line(lint: LintView, names: nat, levels: nat) -> Seq<char> {
    "    "@ + padded(lint.name, names) + "    "@ + padded(lint.level, levels) + "    "@ + lint.desc
}

proof fn lemma_lint_columns(lint: LintView, names: nat, levels: nat)
    requires
        is_plain_lint(lint, names, levels),
    ensures
        ({
            let line = bare_lint_line(lint, names, levels);
            &&& line.subrange(4, 4int + lint.name.len()) == lint.name
            &&& line.subrange(8int + names, 8int + names + lint.level.len()) == lint.level
            &&& line.skip(12int + names + levels) == lint.desc
            &&& !line.contains('\n')
            &&& line.len() > 0 && line.last() != '\r'
            &&& lint_line(lint, names, levels) == line.push('\n')
        }),
{
    reveal_strlit("    ");
    reveal_strlit("\n");
    let line = bare_lint_line(lint, names, levels);
    assert(line.subrange(4, 4int + lint.name.len()) =~= lint.name);
    assert(line.subrange(8int + names, 8int + names + lint.level.len()) =~= lint.level);
    assert(line.skip(12int + names + levels) =~= lint.desc);
    assert("\n"@ =~= seq!['\n']);
    assert(lint_line(lint, names, levels) =~= line.push('\n'));
    assert(line.last() == lint.desc.last());
    assert(!line.contains('\n')) by {
        if line.contains('\n') {
            let k = choose|k: int| 0 <= k < line.len() && line[k] == '\n';
            if 4 <= k < 4 + lint.name.len() {
                assert(lint.name[k - 4] == '\n');
            } else if 8 + names <= k < 8 + names + lint.level.len() {
                assert(lint.level[k - 8 - names] == '\n');
            } else if k >= 12 + names + levels {
                assert(lint.desc[k - 12 - names - levels] == '\n');
            } else {
                assert(line[k] == ' ');
            }
        }
    }
}

proof fn lemma_lint_lines(ordered: Seq<LintView>, names: nat, levels: nat)
    requires
        forall|i: int|
            0 <= i < ordered.len() ==> is_plain_lint(#[trigger] ordered[i], names, levels),
    ensures
        ({
            let body = concat(ordered.map_values(|l: LintView| lint_line(l, names, levels)));
            &&& lines(body).len() == ordered.len()
            &&& forall|i: int|
                0 <= i < ordered.len() ==> #[trigger] lines(body)[i] == bare_lint_line(
                    ordered[i],
                    names,
                    levels,
                )
        }),
    decreases ordered.len(),
{
    let texts = ordered.map_values(|l: LintView| lint_line(l, names, levels));
    let body = concat(texts);
    if ordered.len() > 0 {
        let rest = ordered.skip(1);
        assert forall|i: int| 0 <= i < rest.len() implies is_plain_lint(
            #[trigger] rest[i],
            names,
            levels,
        ) by {
            assert(rest[i] == ordered[i + 1]);
        }
        lemma_lint_lines(rest, names, levels);
        let later = rest.map_values(|l: LintView| lint_line(l, names, levels));
        lemma_concat_first(texts);
        assert(texts.skip(1) =~= later);
        assert(is_plain_lint(ordered[0], names, levels));
        lemma_lint_columns(ordered[0], names, levels);
        lemma_lines_first(bare_lint_line(ordered[0], names, levels), concat(later));
        assert forall|i: int| 0 <= i < ordered.len() implies #[trigger] lines(body)[i]
            == bare_lint_line(ordered[i], names, levels) by {
            if i > 0 {
                assert(rest[i - 1] == ordered[i]);
            }
        }
    } else {
        assert(lines(body) =~= Seq::<Seq<char>>::empty());
    }
}

/// Two builds of the driver keep their caches apart: a build takes its own
/// for no other's.
pub proof fn each_build_has_a_cache_of_its_own(a: u64, b: u64)
    requires
        own_cache(a) == own_cache(b),
    ensures
        a == b,
{
    let head = "mordant-driver-"@;
    assert(own_cache(a).skip(head.len() as int) =~= hexadecimal(a as nat, 16));
    assert(own_cache(b).skip(head.len() as int) =~= hexadecimal(b as nat, 16));
    hexadecimal_tells_numbers_apart(a, b);
}

} // verus!
