//! How a run ends, once cargo has built it and `unused_pub` is reported: what
//! is said of the findings over the baseline, what `over-baseline.txt` is to
//! hold, and the exit status.

use vstd::prelude::*;
use vstd::string::*;

use crate::diagnostics::{Message, RemarkView, Severity};
use crate::order::sorted;
use crate::over_baseline::{
    join, lines_text, listed_in_words, run_summary, run_words, write_over_baseline,
    OverBaselineLine, Wanted,
};
use crate::paths::directory;
use crate::text::{a_part_stands_between, holds, viewed, views};
use crate::unused_pub::{
    above, directory_above, first_unit, named_roots, plain_message, roots_named,
};

verus! {

/// The exit status when a finding is an error: what cargo exits with when a
/// crate fails to compile.
pub const FAILED: u8 = 101;

/// What is said when units left no count.
pub open spec fn uncounted_words(
    root: Seq<char>,
    facts: Seq<char>,
    srcs: Seq<Seq<char>>,
) -> Seq<char> {
    "mordant: `over-baseline.txt` was not written: "@ + listed_in_words(roots_named(root, srcs))
        + " left no count of its findings over the baseline; remove `"@ + above(facts)
        + "`, which holds those counts and the build `cargo mordant` reuses, then run again"@
}

/// The end of a run.
pub struct Ending {
    /// The closing error, if there is one.
    pub error: Option<Message>,
    pub wanted: Wanted,
    pub failed: bool,
}

/// The lines of the compilations and of `unused_pub`.
fn all_lines(counted: Vec<OverBaselineLine>, reported: Vec<OverBaselineLine>) -> (lines: Vec<
    OverBaselineLine,
>)
    ensures
        viewed(lines@) == viewed(counted@) + viewed(reported@),
{
    let ghost first = viewed(counted@);
    let ghost second = viewed(reported@);
    let mut lines = counted;
    let mut rest = reported;
    lines.append(&mut rest);
    assert(viewed(lines@) =~= first + second);
    lines
}

/// An error that is about no one item.
pub fn closing_error(text: String, units: usize) -> (message: Message)
    ensures
        message@ == plain_message(Severity::Error, text@, first_unit(units as nat)),
{
    let unit: Option<usize> = if units > 0 {
        Some(0)
    } else {
        None
    };
    let message = Message {
        severity: Severity::Error,
        text,
        code: None,
        at: None,
        remarks: Vec::new(),
        unit,
        closing: false,
    };
    assert(message@.remarks =~= Seq::<RemarkView>::empty());
    message
}

/// Whether a run fails, given whether a finding was an error and how many
/// lines are over the baseline, if every count is there.
pub open spec fn fails(errors: bool, lines: Option<nat>, write_mode: bool) -> bool {
    match lines {
        Some(lines) => errors || (lines > 0 && !write_mode),
        None => true,
    }
}

/// Whether there is a closing error, given how many lines are over the
/// baseline, if every count is there.
pub open spec fn says_why(lines: Option<nat>, write_mode: bool) -> bool {
    match lines {
        Some(lines) => lines > 0 && !write_mode,
        None => true,
    }
}

/// How a run ends. `errors` is whether a reported finding was an error,
/// `reported` the lines of `unused_pub`, and `counts` the lines of the
/// compilations or the crate roots that left no count. Without every count
/// the file is left alone and the run fails; with any line in the file the
/// run fails too.
pub fn end_run(
    root: &str,
    facts: &str,
    units: usize,
    errors: bool,
    reported: Vec<OverBaselineLine>,
    counts: Result<Vec<OverBaselineLine>, Vec<String>>,
    write_mode: bool,
) -> (ending: Ending)
    ensures
        ({
            let fallback = first_unit(units as nat);
            match counts {
                Err(srcs) => {
                    &&& ending.wanted is AsItIs
                    &&& ending.failed
                    &&& ending.error is Some
                    &&& ending.error->0@ == plain_message(
                        Severity::Error,
                        uncounted_words(root@, facts@, views(srcs@)),
                        fallback,
                    )
                },
                Ok(counted) => {
                    let lines = viewed(counted@) + viewed(reported@);
                    if write_mode {
                        ending.wanted is AsItIs && ending.error is None && ending.failed == errors
                    } else if lines.len() == 0 {
                        ending.wanted is Gone && ending.error is None && ending.failed == errors
                    } else {
                        &&& ending.wanted matches Wanted::Text(text) && text@ == lines_text(
                            sorted::<OverBaselineLine>(lines),
                        )
                        &&& ending.failed
                        &&& ending.error is Some
                        &&& ending.error->0@ == plain_message(
                            Severity::Error,
                            run_words(lines),
                            fallback,
                        )
                    }
                },
            }
        }),
        ending.failed == fails(
            errors,
            match counts {
                Ok(counted) => Some((counted@.len() + reported@.len()) as nat),
                Err(_) => None,
            },
            write_mode,
        ),
        ending.error is Some <==> says_why(
            match counts {
                Ok(counted) => Some((counted@.len() + reported@.len()) as nat),
                Err(_) => None,
            },
            write_mode,
        ),
{
    match counts {
        Err(srcs) => {
            let named = join(&named_roots(root, &srcs));
            let dir = directory_above(facts);
            let text = "mordant: `over-baseline.txt` was not written: ".to_owned().concat(
                named.as_str(),
            ).concat(" left no count of its findings over the baseline; remove `").concat(
                dir.as_str(),
            ).concat(
                "`, which holds those counts and the build `cargo mordant` reuses, then run again",
            );
            Ending { error: Some(closing_error(text, units)), wanted: Wanted::AsItIs, failed: true }
        },
        Ok(counted) => {
            let lines = all_lines(counted, reported);
            let over = lines.len() > 0 && !write_mode;
            let error = if over {
                Some(closing_error(run_summary(&lines), units))
            } else {
                None
            };
            let wanted = write_over_baseline(lines, write_mode);
            Ending { error, wanted, failed: errors || over }
        },
    }
}

/// The exit status of a run that cargo built.
pub open spec fn status_of(failed: bool, written: bool) -> u8 {
    match (written, failed) {
        (true, false) => 0,
        (true, true) => 101,
        (false, _) => 1,
    }
}

/// The exit status of a run that cargo built: success, or that of a failed
/// build. A status file that could not be written is a failure of its own.
pub fn run_status(failed: bool, written: bool) -> (status: u8)
    ensures
        status == if !written {
            1u8
        } else if failed {
            FAILED
        } else {
            0u8
        },
        status == status_of(failed, written),
{
    if !written {
        1
    } else if failed {
        FAILED
    } else {
        0
    }
}

/// The exit status of the program a run hands over to, as its own: one that
/// does not fit, or that a signal ended, is a failure.
pub fn exit_code(code: Option<i32>) -> (status: u8)
    ensures
        status == if code is Some && 0 <= code->0 <= 255 {
            code->0 as u8
        } else {
            1u8
        },
{
    match code {
        Some(code) => if 0 <= code && code <= 255 {
            code as u8
        } else {
            1
        },
        None => 1,
    }
}

/// A run passes exactly when no finding was an error, every compilation left
/// its count, and nothing is over the baseline or the run writes it. Where it
/// fails for more than its findings, it says why, and it says so nowhere else.
pub proof fn a_run_passes_only_with_nothing_over(
    errors: bool,
    lines: Option<nat>,
    write_mode: bool,
)
    ensures
        !fails(errors, lines, write_mode) <==> !errors && lines is Some && (write_mode || lines->0
            == 0),
        says_why(lines, write_mode) ==> fails(errors, lines, write_mode),
        fails(errors, lines, write_mode) && !errors ==> says_why(lines, write_mode),
        says_why(lines, write_mode) == fails(false, lines, write_mode),
{
}

/// A run exits with success exactly when it did not fail and its status file
/// was written, and a finding exits as a crate that does not compile does.
pub proof fn success_is_for_a_run_that_passed(failed: bool, written: bool)
    ensures
        status_of(failed, written) == 0 <==> !failed && written,
        failed && written ==> status_of(failed, written) == FAILED,
{
}

/// What is said when counts are missing names each crate root and the
/// directory to remove, which is the one above the records.
pub proof fn missing_counts_are_said_with_what_to_remove(
    root: Seq<char>,
    facts: Seq<char>,
    srcs: Seq<Seq<char>>,
)
    ensures
        holds(uncounted_words(root, facts, srcs), listed_in_words(roots_named(root, srcs))),
        directory(facts) matches Some(dir) ==> holds(
            uncounted_words(root, facts, srcs),
            "remove `"@ + dir + "`"@,
        ),
{
    let words = uncounted_words(root, facts, srcs);
    let names = listed_in_words(roots_named(root, srcs));
    let start = "mordant: `over-baseline.txt` was not written: "@;
    let middle = " left no count of its findings over the baseline; remove `"@;
    let end = "`, which holds those counts and the build `cargo mordant` reuses, then run again"@;
    a_part_stands_between(start, names, middle + above(facts) + end);
    assert(words =~= start + names + (middle + above(facts) + end));
    reveal_strlit(" left no count of its findings over the baseline; remove `");
    reveal_strlit(
        "`, which holds those counts and the build `cargo mordant` reuses, then run again",
    );
    reveal_strlit("remove `");
    reveal_strlit("`");
    let n = middle.len() - "remove `"@.len();
    let part = "remove `"@ + above(facts) + "`"@;
    let before = start + names + middle.take(n);
    assert(middle =~= middle.take(n) + "remove `"@);
    assert(end =~= "`"@ + end.skip(1));
    a_part_stands_between(before, part, end.skip(1));
    assert(words =~= before + part + end.skip(1));
}

} // verus!
