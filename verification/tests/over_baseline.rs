use mordant::files::Files;
use mordant::judge::RunUnit;
use mordant::over_baseline::{
    at_path, join, read_counts, run_summary, temp_file, write_over_baseline, OverBaselineLine,
    OverBaselineLines, SameContents, Wanted,
};
use mordant::records::Unit;

/// A status file, and how often it was written.
struct StatusFile {
    text: Option<String>,
    writes: usize,
}

impl StatusFile {
    fn new() -> StatusFile {
        StatusFile { text: None, writes: 0 }
    }

    fn holds(&self, text: &str) -> bool {
        let Some(held) = &self.text else {
            return false;
        };
        let mut comparison = SameContents::new(text);
        for chunk in held.as_bytes().chunks(4) {
            if !comparison.chunk(chunk) {
                return false;
            }
        }
        comparison.finish()
    }

    fn write(&mut self, lines: Vec<OverBaselineLine>) {
        match write_over_baseline(lines, false) {
            Wanted::AsItIs => {}
            Wanted::Gone => self.text = None,
            Wanted::Text(text) => {
                if !self.holds(&text) {
                    self.text = Some(text);
                    self.writes += 1;
                }
            }
        }
    }
}

#[test]
fn the_same_lines_leave_over_baseline_txt_untouched() {
    let lines = || vec![OverBaselineLine::new("crate1", 1), OverBaselineLine::new("crate2", 2)];
    let mut file = StatusFile::new();
    file.write(lines());
    assert_eq!(file.text.as_deref(), Some("crate1 1\ncrate2 2\n"));
    let before = file.writes;
    file.write(lines());
    assert_eq!(file.writes, before);
    assert_eq!(file.text.as_deref(), Some("crate1 1\ncrate2 2\n"));
}

#[test]
fn new_counts_replace_over_baseline_txt() {
    let mut file = StatusFile::new();
    file.write(vec![OverBaselineLine::new("crate_a", 1), OverBaselineLine::new("crate_b", 2)]);
    assert_eq!(file.text.as_deref(), Some("crate_a 1\ncrate_b 2\n"));
    file.write(vec![OverBaselineLine::new("crate_a", 3), OverBaselineLine::new("crate_b", 4)]);
    assert_eq!(file.text.as_deref(), Some("crate_a 3\ncrate_b 4\n"));
    assert_eq!(file.writes, 2);
}

#[test]
fn no_lines_delete_over_baseline_txt() {
    let mut file = StatusFile::new();
    file.write(vec![OverBaselineLine::new("crate_a", 1), OverBaselineLine::new("crate_b", 2)]);
    assert_eq!(file.text.as_deref(), Some("crate_a 1\ncrate_b 2\n"));
    file.write(Vec::new());
    assert!(file.text.is_none());
}

#[test]
fn no_lines_and_no_file_write_nothing() {
    let mut file = StatusFile::new();
    file.write(Vec::new());
    assert!(file.text.is_none());
    assert_eq!(file.writes, 0);
}

#[test]
fn a_run_that_writes_the_baseline_leaves_the_file_alone() {
    assert!(matches!(write_over_baseline(Vec::new(), true), Wanted::AsItIs));
    let lines = vec![OverBaselineLine::new("demo", 1)];
    assert!(matches!(write_over_baseline(lines, true), Wanted::AsItIs));
}

#[test]
fn lines_are_sorted_by_section_then_count() {
    let some = |order: &[usize]| {
        let all = [("b", 2), ("a", 10), ("a", 9), ("ab", 1)];
        order.iter().map(|i| OverBaselineLine::new(all[*i].0, all[*i].1)).collect::<Vec<_>>()
    };
    let first = OverBaselineLines::new(some(&[0, 1, 2, 3]));
    let second = OverBaselineLines::new(some(&[3, 2, 1, 0]));
    assert!(!first.is_empty());
    assert_eq!(first.text(), "a 9\na 10\nab 1\nb 2\n");
    assert_eq!(first.text(), second.text());
    assert!(OverBaselineLines::new(Vec::new()).is_empty());
    assert_eq!(OverBaselineLines::new(Vec::new()).text(), "");
}

#[test]
fn the_summary_of_a_line_names_its_section() {
    let line = OverBaselineLine::new("demo (bin demo)", 1);
    assert_eq!(line.summary(), "mordant: 1 finding(s) over the baseline in demo (bin demo)");
}

#[test]
fn the_summary_of_a_run_adds_up_and_names_each_section_once() {
    let lines = vec![
        OverBaselineLine::new("zeta", 1),
        OverBaselineLine::new("demo", 2),
        OverBaselineLine::new("alpha", 40),
        OverBaselineLine::new("demo", 3),
    ];
    assert_eq!(
        run_summary(&lines),
        "mordant: 46 finding(s) over the baseline in `alpha`, `demo` and `zeta`"
    );
    let one = vec![OverBaselineLine::new("demo (bin demo)", 1)];
    assert_eq!(
        run_summary(&one),
        "mordant: 1 finding(s) over the baseline in `demo (bin demo)`"
    );
    let many = vec![OverBaselineLine::new("a", usize::MAX), OverBaselineLine::new("a", 1)];
    assert_eq!(
        run_summary(&many),
        format!("mordant: {} finding(s) over the baseline in `a`", usize::MAX as u128 + 1)
    );
}

#[test]
fn items_are_joined_in_words() {
    let texts = |items: &[&str]| items.iter().map(|s| s.to_string()).collect::<Vec<String>>();
    assert_eq!(join(&texts(&[])), "");
    assert_eq!(join(&texts(&["a"])), "a");
    assert_eq!(join(&texts(&["a", "b"])), "a and b");
    assert_eq!(join(&texts(&["a", "b", "c"])), "a, b and c");
}

#[test]
fn contents_are_compared_chunk_by_chunk() {
    let mut comparison = SameContents::new("crate1 1\n");
    assert!(comparison.chunk(b"crate"));
    assert!(comparison.chunk(b""));
    assert!(comparison.chunk(b"1 1\n"));
    assert!(comparison.finish());

    let mut shorter = SameContents::new("crate1 1\n");
    assert!(shorter.chunk(b"crate1"));
    assert!(!shorter.finish());

    let mut longer = SameContents::new("crate1");
    assert!(!longer.chunk(b"crate1 1\n"));
    assert!(!longer.finish());

    let mut other = SameContents::new("crate1 1\n");
    assert!(!other.chunk(b"crate2 1\n"));
    assert!(!other.finish());

    assert!(SameContents::new("").finish());
    assert!(!SameContents::new("a").finish());
}

#[test]
fn the_temporary_file_is_beside_its_path() {
    assert_eq!(
        temp_file("/t/mordant/over-baseline.txt", 4711).as_deref(),
        Some("/t/mordant/.over-baseline.txt.4711.tmp")
    );
    assert!(temp_file("/", 1).is_none());
    assert!(temp_file("", 1).is_none());
    assert!(temp_file("/t/..", 1).is_none());
}

#[test]
fn an_error_says_which_path_it_is_at() {
    assert_eq!(
        at_path("/t/over-baseline.txt", "Is a directory (os error 21)"),
        "/t/over-baseline.txt: Is a directory (os error 21)"
    );
}

const FACTS: &str = "/w/target/mordant/unused_pub";

fn test_unit() -> RunUnit {
    RunUnit {
        unit: Unit {
            src: "/w/tests/it.rs".to_string(),
            canonical: "/w/tests/it.rs".to_string(),
            test: true,
            extra_filename: "-1".to_string(),
        },
        package_id: "demo".to_string(),
        manifest_path: "/w/Cargo.toml".to_string(),
        target: "{}".to_string(),
    }
}

#[test]
fn a_test_units_damaged_count_is_not_made_up_for_by_the_plain_units() {
    let run = vec![test_unit()];
    for text in ["demo\tnot a number\n", "demo\t+5\n", "demo\t05\n"] {
        let mut files = Files::new();
        files.add_file(&run[0].unit.over(FACTS), text.to_string());
        files.add_file(&run[0].unit.plain().over(FACTS), String::new());
        match read_counts(FACTS, &run, &Vec::new(), &files) {
            Ok(_) => panic!("{text:?} is no count"),
            Err(srcs) => assert_eq!(srcs, vec!["/w/tests/it.rs"]),
        }
    }
}

#[test]
fn a_test_unit_without_a_count_has_the_plain_units() {
    let run = vec![test_unit()];
    let mut files = Files::new();
    files.add_file(&run[0].unit.plain().over(FACTS), "demo\t5\n".to_string());
    assert_eq!(read_counts(FACTS, &run, &Vec::new(), &files).ok().unwrap().len(), 1);
    files.add_file(&run[0].unit.over(FACTS), String::new());
    assert!(read_counts(FACTS, &run, &Vec::new(), &files).ok().unwrap().is_empty());
}
