use mordant::args::Output;
use mordant::baseline_file::recorded;
use mordant::config::{baseline_name, is_disabled, is_named};
use mordant::diagnostics::Severity;
use mordant::ending::{closing_error, end_run, exit_code, run_status};
use mordant::files::Files;
use mordant::judge::{Finding, Records};
use mordant::maps::TextMap;
use mordant::number::{count_text, decimal_of, hexadecimal_16, parse_up_to, sum_text};
use mordant::order::{is_text_before, sort};
use mordant::over_baseline::{OverBaselineLine, Wanted};
use mordant::paths::{
    beside_path, directory_of, file_name_of, join_path, path_from_root, same_path,
};
use mordant::records::{Def, Note};
use mordant::sets::TextSet;
use mordant::text::{
    chars_of, contains, find_from, has_part, has_prefix, join_with, lines_of, same, split_at_each,
    split_once, strip_prefix,
};
use mordant::unused_pub::{
    baseline_for, directory_above, named_roots, Baseline, Printer, HELP, LINT,
};

fn texts(items: &[&str]) -> Vec<String> {
    items.iter().map(|s| s.to_string()).collect()
}

#[test]
fn texts_are_taken_apart_and_put_together() {
    assert_eq!(split_at_each("a\tb\t\tc", '\t'), texts(&["a", "b", "", "c"]));
    assert_eq!(split_at_each("", ','), texts(&[""]));
    assert_eq!(split_once("a:b:c", ':'), Some(("a".to_string(), "b:c".to_string())));
    assert_eq!(split_once("abc", ':'), None);
    assert_eq!(join_with(&texts(&["a", "", "b"]), ", "), "a, , b");
    assert_eq!(join_with(&Vec::new(), ", "), "");
    assert_eq!(strip_prefix("--a=b", "--a="), Some("b".to_string()));
    assert_eq!(strip_prefix("--a", "--a="), None);
    assert!(has_prefix("json-x", "json") && !has_prefix("jso", "json"));
    assert!(has_part("a-diagnostic-short", "nostic") && !has_part("abc", "ac"));
    assert!(has_part("abc", ""));
    assert!(same("a", "a") && !same("a", "b"));
    assert!(contains(&texts(&["a", "b"]), "b") && !contains(&texts(&["a"]), "b"));
    let chars = chars_of("a\u{e9}\u{1f600}");
    assert_eq!(chars.len(), 3);
    assert_eq!(find_from(&chars, 1, '\u{1f600}'), 2);
    assert_eq!(find_from(&chars, 1, 'a'), 3);
}

#[test]
fn lines_end_as_the_standard_library_ends_them() {
    for text in ["", "\n", "a", "a\n", "a\nb", "a\r\nb\r", "\n\n", "a\r\r\nb"] {
        let expected: Vec<&str> = text.lines().collect();
        assert_eq!(lines_of(text), expected, "{text:?}");
    }
}

#[test]
fn numbers_are_written_and_read() {
    assert_eq!(decimal_of(0), "0");
    assert_eq!(decimal_of(u64::MAX), u64::MAX.to_string());
    assert_eq!(count_text(1024), "1024");
    assert_eq!(sum_text(u128::MAX), u128::MAX.to_string());
    assert_eq!(hexadecimal_16(0xdead), "000000000000dead");
    assert_eq!(hexadecimal_16(u64::MAX), "ffffffffffffffff");
    assert_eq!(parse_up_to("42", 100), Some(42));
    assert_eq!(parse_up_to("+42", 100), Some(42));
    assert_eq!(parse_up_to("007", 100), Some(7));
    assert_eq!(parse_up_to("101", 100), None);
    for text in ["", "+", "-1", "4a", " 4", "4 "] {
        assert_eq!(parse_up_to(text, 100), None, "{text:?}");
    }
    assert_eq!(parse_up_to("18446744073709551615", u64::MAX), Some(u64::MAX));
    assert_eq!(parse_up_to("18446744073709551616", u64::MAX), None);
    assert_eq!(parse_up_to(&decimal_of(4711), u64::MAX), Some(4711));
}

#[test]
fn texts_are_ordered_as_their_characters_are() {
    let mut items = texts(&["b", "", "ab", "\u{1f600}", "a", "\u{ffff}", "B"]);
    let sorted = sort(items.clone());
    items.sort();
    assert_eq!(sorted, items);
    assert!(is_text_before("a", "ab") && !is_text_before("ab", "a") && !is_text_before("a", "a"));
}

#[test]
fn paths_are_joined_and_taken_apart() {
    assert_eq!(join_path("/w", "a/b"), "/w/a/b");
    assert_eq!(join_path("/w/", "a"), "/w/a");
    assert_eq!(join_path("/w", "/a"), "/a");
    assert_eq!(join_path("", "a"), "a");
    assert_eq!(file_name_of("/w/a.rs"), Some("a.rs".to_string()));
    assert_eq!(file_name_of("/w/a.rs/./"), Some("a.rs".to_string()));
    for path in ["", "/", ".", "./", "..", "/w/..", "/."] {
        assert_eq!(file_name_of(path), None, "{path:?}");
    }
    assert_eq!(beside_path("/w/unused_pub", "counts"), "/w/counts");
    assert_eq!(beside_path("unused_pub", "counts"), "counts");
    assert_eq!(beside_path("/unused_pub/", "counts"), "/counts");
    assert_eq!(beside_path("/w//unused_pub", "counts"), "/w/counts");
    assert_eq!(beside_path("/w/..", "counts"), "/w/../counts");
    assert_eq!(directory_of("/w/a"), Some("/w".to_string()));
    assert_eq!(directory_of("/w"), Some("/".to_string()));
    assert_eq!(directory_of("/"), None);
    assert_eq!(directory_of("/./"), None);
    assert_eq!(directory_of("/w/./a/."), Some("/w".to_string()));
    assert_eq!(directory_of("./a"), Some(".".to_string()));
    assert_eq!(directory_of("."), Some(String::new()));
    assert_eq!(directory_of("a"), Some(String::new()));
    assert!(same_path("/w/a", "/w/a/") && !same_path("/w/a", "/w/b"));
    assert!(same_path("/w//a/.", "/w/./a") && same_path("a/./b", "a/b"));
    assert!(!same_path("./a", "a") && !same_path("/w/a", "w/a") && !same_path("/w/../a", "/a"));
    assert_eq!(path_from_root("/w/src/lib.rs", "/w"), "src/lib.rs");
    assert_eq!(path_from_root("/work/src/lib.rs", "/w"), "/work/src/lib.rs");
    assert_eq!(path_from_root(&join_path("/w", "src/a.rs"), "/w"), "src/a.rs");
    assert_eq!(directory_above("/t/mordant/unused_pub"), "/t/mordant");
    assert_eq!(directory_above("/"), "/");
}

#[test]
fn sets_and_maps_are_sorted_and_hold_each_text_once() {
    let mut set = TextSet::new();
    for text in ["b", "a", "c", "a"] {
        set.insert(text);
    }
    let mut other = TextSet::new();
    for text in ["c", "b", "a"] {
        other.insert(text);
    }
    assert_eq!(set.len(), 3);
    for (i, text) in ["a", "b", "c"].iter().enumerate() {
        assert_eq!(set.at(i), text);
        assert_eq!(other.at(i), text);
    }
    assert!(set.has("a") && !set.has("d"));

    let mut map: TextMap<u64> = TextMap::new();
    map.put("b", 1);
    map.put("a", 2);
    map.put("b", 3);
    assert_eq!(map.len(), 2);
    assert_eq!((map.key_at(0).as_str(), *map.value_at(1)), ("a", 3));
    assert_eq!(map.get("b"), Some(&3));
    assert_eq!(map.remove("a"), Some(2));
    assert_eq!(map.remove("a"), None);
    assert_eq!(map.len(), 1);
}

#[test]
fn files_are_read_by_their_path() {
    let mut files = Files::new();
    assert!(files.read("/a").is_none());
    files.add_file("/a", "one".to_string());
    files.add_file("/a", "two".to_string());
    assert_eq!(files.read("/a").map(String::as_str), Some("two"));
}

#[test]
fn the_configuration_names_the_baseline() {
    assert_eq!(
        baseline_name("[mordant]\nbaseline = \"mordant-baseline.toml\"\n"),
        Some("mordant-baseline.toml".to_string())
    );
    for config in ["", "[mordant]\n", "[mordant]\nbaseline = 1\n", "baseline = \"x\"\n", "no toml"] {
        assert_eq!(baseline_name(config), None, "{config:?}");
    }
}

#[test]
fn a_lint_is_disabled_by_name_or_by_family() {
    let disabled = |config: &str| is_disabled(config, "unused_pub", "unused");
    assert!(disabled("[mordant]\ndisabled = [\"unit_mismatch\", \"unused_pub\"]\n"));
    assert!(disabled("[mordant]\ndisabled = [\"group:unused\"]\n"));
    assert!(!disabled("[mordant]\ndisabled = [\"group:duplication\", \"unused\"]\n"));
    assert!(!disabled("[mordant]\n"));
    assert!(!disabled("disabled = [\"unused_pub\"]\n"));
    assert!(is_named(Some(&texts(&["group:naming"])), "unit_mismatch", "naming"));
    assert!(!is_named(None, "unit_mismatch", "naming"));
}

#[test]
fn a_run_ends_with_its_status() {
    assert_eq!(run_status(false, true), 0);
    assert_eq!(run_status(true, true), 101);
    assert_eq!(run_status(true, false), 1);
    assert_eq!(run_status(false, false), 1);
    assert_eq!(exit_code(Some(0)), 0);
    assert_eq!(exit_code(Some(101)), 101);
    assert_eq!(exit_code(Some(255)), 255);
    assert_eq!(exit_code(Some(256)), 1);
    assert_eq!(exit_code(Some(-1)), 1);
    assert_eq!(exit_code(None), 1);
}

#[test]
fn a_run_with_any_line_fails() {
    let line = || vec![OverBaselineLine::new("demo", 2)];
    let ending = end_run("/w", "/t/f", 1, false, line(), Ok(line()), false);
    assert!(ending.failed);
    assert!(matches!(ending.wanted, Wanted::Text(text) if text == "demo 2\ndemo 2\n"));
    let error = ending.error.unwrap();
    assert_eq!(error.text, "mordant: 4 finding(s) over the baseline in `demo`");
    assert_eq!(error.unit, Some(0));

    let ending = end_run("/w", "/t/f", 1, false, Vec::new(), Ok(Vec::new()), false);
    assert!(!ending.failed && ending.error.is_none());
    assert!(matches!(ending.wanted, Wanted::Gone));
    assert!(end_run("/w", "/t/f", 1, true, Vec::new(), Ok(Vec::new()), false).failed);

    let ending = end_run("/w", "/t/f", 1, false, line(), Ok(line()), true);
    assert!(!ending.failed && ending.error.is_none());
    assert!(matches!(ending.wanted, Wanted::AsItIs));
}

#[test]
fn a_run_without_a_count_fails_and_leaves_the_file() {
    let missing = texts(&["/w/src/main.rs", "/w/build.rs"]);
    let ending = end_run("/w", "/w/target/mordant/unused_pub", 0, false, Vec::new(), Err(missing), true);
    assert!(ending.failed);
    assert!(matches!(ending.wanted, Wanted::AsItIs));
    let error = ending.error.unwrap();
    assert_eq!(
        error.text,
        "mordant: `over-baseline.txt` was not written: `src/main.rs` and `build.rs` left no count \
         of its findings over the baseline; remove `/w/target/mordant`, which holds those counts \
         and the build `cargo mordant` reuses, then run again"
    );
    assert_eq!(error.unit, None);
    assert_eq!(closing_error("x".to_string(), 3).unit, Some(0));
}

#[test]
fn crate_roots_are_named_once_from_the_workspace_root() {
    let srcs = texts(&["/w/src/lib.rs", "/x/lib.rs", "/w/src/lib.rs"]);
    assert_eq!(named_roots("/w", &srcs), texts(&["`src/lib.rs`", "`/x/lib.rs`"]));
}

fn finding(file: &str, lo: u32, section: &str) -> Finding {
    Finding {
        def: Def {
            key: format!("demo::f{lo}"),
            file: file.to_string(),
            lo,
            hi: lo + 1,
            descr: "function".to_string(),
            path: format!("demo::f{lo}"),
            parent: String::new(),
            level: "warn".to_string(),
            notes: vec![Note { help: false, message: "why".to_string(), at: None }],
        },
        section: section.to_string(),
        unit: 0,
    }
}

#[test]
fn writing_the_baseline_touches_its_own_entries_only() {
    let existing = "[gone]\n\"unused_pub:src/old.rs\" = 9\n\n[kept]\n\"unused_pub:k.rs\" = 2\n\n\
                    [demo]\n\"discarded_error:src/lib.rs\" = 1\n\"unused_pub:src/lib.rs\" = 7\n";
    let mut sections = TextSet::new();
    for section in ["demo", "gone"] {
        sections.insert(section);
    }
    let unused = vec![finding("src/lib.rs", 1, "demo"), finding("src/lib.rs", 5, "demo")];
    let text = mordant::unused_pub::write(existing, &sections, &unused);
    assert!(text.contains("\"discarded_error:src/lib.rs\" = 1"), "{text}");
    assert!(text.contains("\"unused_pub:src/lib.rs\" = 2"), "{text}");
    assert!(text.contains("\"unused_pub:k.rs\" = 2"), "{text}");
    assert!(!text.contains("gone"), "{text}");
    assert_eq!(mordant::unused_pub::write(&text, &sections, &unused), text);
}

#[test]
fn findings_past_the_count_are_their_sections_to_answer_for() {
    let mut sections = TextSet::new();
    for section in ["a", "b", "c"] {
        sections.insert(section);
    }
    let records = Records::Judged {
        unused: vec![
            finding("other.rs", 0, "c"),
            finding("shared.rs", 1, "a"),
            finding("shared.rs", 2, "b"),
            finding("shared.rs", 3, "a"),
            finding("shared.rs", 4, "b"),
        ],
        sections,
    };
    let counts = "[a]\n\"unused_pub:shared.rs\" = 1\n[c]\n\"unused_pub:other.rs\" = 1\n";
    let baseline = Baseline::Held(recorded(counts).unwrap());
    let mut sources = Files::new();
    for file in ["/w/shared.rs", "/w/other.rs"] {
        sources.add_file(file, "0123456789".to_string());
    }
    let report = mordant::unused_pub::report(
        "/w",
        "/t/f",
        1,
        &records,
        &sources,
        &Output::Human,
        &baseline,
    );
    let lines: Vec<(&str, usize)> =
        report.lines.iter().map(|line| (line.section.as_str(), line.count)).collect();
    assert_eq!(lines, vec![("b", 2), ("a", 1)]);
    assert!(!report.errors);
    let said: Vec<&str> = report.messages.iter().map(|m| m.text.as_str()).collect();
    assert_eq!(said.len(), 8);
    assert!(said[..4].iter().all(|text| text.ends_with("nothing in the workspace uses it")));
    assert!(!said.iter().any(|text| text.contains("f0")));
    assert!(said[4].starts_with("mordant: 4 `unused_pub` findings in shared.rs"));
    assert_eq!(said[5], "mordant: 2 finding(s) over the baseline in b");
    assert_eq!(said[6], "mordant: 1 finding(s) over the baseline in a");
    assert_eq!(said[7], "`unused_pub` generated 4 warnings");
    let note = &report.messages[0].remarks[1];
    assert_eq!(note.text, "`unused_pub` over the mordant baseline (1 recorded for shared.rs)");
    assert!(report.messages[0].code.is_none());
}

#[test]
fn a_baseline_that_is_not_there_is_not_held_to() {
    let present = TextSet::new();
    let files = Files::new();
    let found = |name: Option<&str>, record: bool| {
        baseline_for("/w", name, record, &present, &files)
    };
    assert!(matches!(found(None, false), Some(Baseline::Unset)));
    assert!(matches!(found(Some("b.toml"), false), Some(Baseline::Unset)));
    assert!(matches!(found(Some("b.toml"), true), Some(Baseline::Unset)));
}

#[test]
fn a_baseline_past_what_can_be_counted_is_told() {
    let mut present = TextSet::new();
    present.insert("/w/b.toml");
    let mut files = Files::new();
    files.add_file(
        "/w/b.toml",
        "[a]\n\"l:f\" = 9223372036854775807\n[b]\n\"l:f\" = 9223372036854775807\n[c]\n\"l:f\" = 2\n"
            .to_string(),
    );
    assert!(baseline_for("/w", Some("b.toml"), false, &present, &files).is_none());
}

#[test]
fn the_lint_has_its_name_and_help() {
    assert_eq!(LINT, "unused_pub");
    assert!(HELP.starts_with("remove it; if code under a `cfg`"));
}

#[test]
fn the_closing_count_is_in_words() {
    let mut sources = Files::new();
    sources.add_file("/w/src/lib.rs", "0123456789".to_string());
    let tally = |errors: usize, warnings: usize| {
        let mut printer = Printer::new("/w", &sources, 1);
        for _ in 0..errors {
            printer.finding(&finding("src/lib.rs", 1, "demo"), Severity::Error, None);
        }
        for _ in 0..warnings {
            printer.finding(&finding("src/lib.rs", 1, "demo"), Severity::Warning, None);
        }
        printer.plain(Severity::Warning, "mordant: by the way".to_string());
        let (messages, any) = printer.tally(&Output::Human);
        assert_eq!(any, errors > 0);
        messages.last().unwrap().text.clone()
    };
    assert_eq!(tally(0, 1), "`unused_pub` generated 1 warning");
    assert_eq!(tally(0, 2), "`unused_pub` generated 2 warnings");
    assert_eq!(tally(1, 0), "`unused_pub` generated 1 error");
    assert_eq!(tally(2, 1), "`unused_pub` generated 2 errors and 1 warning");
    assert_eq!(tally(0, 0), "mordant: by the way");
}
