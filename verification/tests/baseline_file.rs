use mordant::baseline_file::{
    append_status, candidates, cargo_target_dir, doc_from_list, entry, find, over_message,
    read_doc, recorded, recorded_in, status_file, update, write_doc, write_mode, Doc, WRITE_ENV,
};
use mordant::maps::TextMap;
use mordant::sets::TextSet;

fn set(texts: &[&str]) -> TextSet {
    let mut set = TextSet::new();
    for text in texts {
        set.insert(text);
    }
    set
}

const BASELINE: &str = "[\"demo (bin demo)\"]\n\"discarded_error:src/main.rs\" = 1\n\n\
                        [demo]\n\"discarded_error:src/lib.rs\" = 2\n\"unused_pub:src/lib.rs\" = 1\n\n\
                        [other]\n\"unused_pub:src/lib.rs\" = 4\nnokey = 3\n";

#[test]
fn a_baseline_is_a_table_of_counts_per_section() {
    let mut doc = read_doc(BASELINE);
    assert_eq!(doc.section_names(), vec!["demo", "demo (bin demo)", "other"]);
    let entries = doc.take_section("demo");
    assert_eq!(entries.len(), 2);
    assert_eq!(entries.get("unused_pub:src/lib.rs"), Some(&1));
    assert_eq!(entries.get("unused_pub:src/main.rs"), None);
    assert_eq!(doc.section_names(), vec!["demo (bin demo)", "other"]);
    assert_eq!(doc.take_section("demo").len(), 0);
}

#[test]
fn a_text_that_cannot_be_read_holds_nothing() {
    for text in ["", "no toml", "[demo]\nkey = \"a text\"\n", "key = 1\n", "[demo]\nkey = -1\n"] {
        assert!(read_doc(text).section_names().is_empty(), "{text:?}");
    }
}

#[test]
fn a_written_document_reads_as_it_was() {
    let list = vec![
        ("demo (bin demo)".to_string(), vec![("unused_pub:src/a b.rs".to_string(), 7)]),
        ("demo".to_string(), vec![("x:y".to_string(), u64::MAX), ("a\"\n:b".to_string(), 0)]),
    ];
    let text = write_doc(&doc_from_list(&list));
    assert!(text.contains("[demo]"), "{text}");
    assert!(text.contains("\"unused_pub:src/a b.rs\" = 7"), "{text}");
    let mut doc = read_doc(&text);
    assert_eq!(doc.section_names(), vec!["demo", "demo (bin demo)"]);
    let entries = doc.take_section("demo");
    assert_eq!(entries.get("x:y"), Some(&u64::MAX));
    assert_eq!(entries.get("a\"\n:b"), Some(&0));
}

#[test]
fn counts_are_summed_over_the_sections() {
    let counts = recorded(BASELINE).unwrap();
    assert_eq!(counts.get("unused_pub", "src/lib.rs"), Some(5));
    assert_eq!(counts.get("discarded_error", "src/lib.rs"), Some(2));
    assert_eq!(counts.get("discarded_error", "src/main.rs"), Some(1));
    assert_eq!(counts.get("discarded_error", "src/other.rs"), None);
    assert_eq!(counts.get("nokey", ""), None);
}

#[test]
fn the_first_colon_ends_the_lint() {
    let counts = recorded("[a]\n\"lint:c:/x.rs\" = 2\n").unwrap();
    assert_eq!(counts.get("lint", "c:/x.rs"), Some(2));
    assert_eq!(counts.get("lint:c", "/x.rs"), None);
    assert_eq!(entry("lint", "c:/x.rs"), "lint:c:/x.rs");
}

#[test]
fn a_total_past_what_can_be_counted_is_none() {
    let most = usize::MAX as u64;
    let list = |second: u64| {
        vec![
            ("a".to_string(), vec![("l:f".to_string(), most)]),
            ("b".to_string(), vec![("l:f".to_string(), second)]),
        ]
    };
    assert!(recorded_in(&doc_from_list(&list(1))).is_none());
    assert_eq!(recorded_in(&doc_from_list(&list(0))).unwrap().get("l", "f"), Some(usize::MAX));
}

#[test]
fn the_baseline_is_the_first_one_upward() {
    let present = set(&["/w/base.toml", "/w/a/b/base.toml", "/w/a/mordant.toml"]);
    let found = |dir: &str, record: bool| find(dir, "base.toml", record, &present);
    let at = |dir: &str, path: &str| Some((dir.to_string(), path.to_string()));
    assert_eq!(found("/w/a/b/c", false), at("/w/a/b", "/w/a/b/base.toml"));
    assert_eq!(found("/w/a", false), at("/w", "/w/base.toml"));
    assert_eq!(found("/w/a", true), at("/w/a", "/w/a/base.toml"));
    assert_eq!(found("/x", true), None);
    assert_eq!(
        find("/w", "none.toml", false, &present),
        None
    );
}

#[test]
fn finding_a_baseline_looks_at_its_candidates_only() {
    let looked_at = candidates("/w/a", "base.toml");
    for path in [
        "/w/a/base.toml",
        "/w/a/mordant.toml",
        "/w/base.toml",
        "/w/mordant.toml",
        "/base.toml",
        "/mordant.toml",
    ] {
        assert!(looked_at.iter().any(|p| p == path), "{path}: {looked_at:?}");
    }
    let some = set(&["/w/base.toml"]);
    let more = set(&["/w/base.toml", "/elsewhere/base.toml", "/w/a/b/base.toml"]);
    assert_eq!(
        find("/w/a", "base.toml", false, &some),
        find("/w/a", "base.toml", false, &more)
    );
}

#[test]
fn updating_edits_what_the_file_holds() {
    let text = update(BASELINE, |doc: Doc| {
        let mut doc = doc;
        let mut entries = TextMap::new();
        entries.put("l:f", 9);
        doc.take_section("other");
        doc.put_section("new", entries);
        doc
    });
    let mut doc = read_doc(&text);
    assert_eq!(doc.section_names(), vec!["demo", "demo (bin demo)", "new"]);
    assert_eq!(doc.take_section("new").get("l:f"), Some(&9));
}

#[test]
fn an_empty_target_dir_is_unset() {
    assert_eq!(cargo_target_dir(None), None);
    assert_eq!(cargo_target_dir(Some(String::new())), None);
    assert_eq!(cargo_target_dir(Some("t".to_string())), Some("t".to_string()));
}

#[test]
fn the_status_file_is_under_the_target() {
    assert_eq!(status_file("/w", None), "/w/target/mordant/over-baseline.txt");
    assert_eq!(status_file("/w", Some("out")), "/w/out/mordant/over-baseline.txt");
    assert_eq!(status_file("/w", Some("/t")), "/t/mordant/over-baseline.txt");
}

#[test]
fn a_file_over_is_said_with_both_counts() {
    assert_eq!(
        over_message("unused_pub", "src/lib.rs", 2, 1),
        "mordant: 2 `unused_pub` findings in src/lib.rs, and the baseline allows 1. The \
         baseline holds a count, not which findings, so all 2 are shown: any of them can \
         be the new one"
    );
}

#[test]
fn the_status_is_appended_to() {
    let mut text = "a 1\n".to_string();
    append_status(&mut text, "demo (bin demo)", 12);
    assert_eq!(text, "a 1\ndemo (bin demo) 12\n");
}

#[test]
fn the_variable_set_to_anything_writes_the_baseline() {
    assert_eq!(WRITE_ENV, "MORDANT_BASELINE_WRITE");
    assert!(write_mode(Some("1")));
    assert!(write_mode(Some("")));
    assert!(!write_mode(None));
}
