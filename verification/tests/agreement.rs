//! Over every short text of a few characters: paths, lines, words and numbers
//! are read as the standard library reads them, what is written reads back,
//! and every excerpt can be printed.

use std::path::Path;

use mordant::args::Output;
use mordant::baseline_file::{doc_from_list, read_doc, write_doc};
use mordant::diagnostics::{print_message, Message, Remark, Severity};
use mordant::driver::{is_whitespace, split_words};
use mordant::excerpt::{span_is_in, Excerpt};
use mordant::number::parse_up_to;
use mordant::paths::{
    beside_path, directory_of, file_name_of, join_path, path_from_root, same_path,
};
use mordant::records::{read_defs, write_defs, Def, Note};
use mordant::text::lines_of;

/// Every text of at most `most` of the parts.
fn texts(parts: &[&str], most: usize) -> Vec<String> {
    let mut all = vec![String::new()];
    let mut last = all.clone();
    for _ in 0..most {
        last = last.iter().flat_map(|s| parts.iter().map(move |p| format!("{s}{p}"))).collect();
        all.extend(last.iter().cloned());
    }
    all
}

fn text(path: &Path) -> String {
    path.to_str().unwrap().to_string()
}

#[test]
fn a_path_is_taken_apart_as_usual() {
    for s in texts(&["/", ".", "a", "b"], 5) {
        let path = Path::new(&s);
        let name = path.file_name().map(|name| name.to_str().unwrap().to_string());
        assert_eq!(file_name_of(&s), name, "{s:?}");
        assert_eq!(directory_of(&s), path.parent().map(text), "{s:?}");
        assert_eq!(beside_path(&s, "x"), text(&path.with_file_name("x")), "{s:?}");
    }
}

#[test]
fn two_paths_are_joined_and_compared_as_usual() {
    let all = texts(&["/", ".", "a", "b"], 3);
    for s in &all {
        for t in &all {
            let (a, b) = (Path::new(s), Path::new(t));
            assert_eq!(join_path(s, t), text(&a.join(b)), "{s:?} {t:?}");
            assert_eq!(same_path(s, t), a == b, "{s:?} {t:?}");
            assert_eq!(path_from_root(s, t), text(a.strip_prefix(b).unwrap_or(a)), "{s:?} {t:?}");
        }
    }
}

#[test]
fn lines_words_and_numbers_are_read_as_usual() {
    for s in texts(&["a", " ", "\n", "\u{85}", "\u{a0}", "\t", "\r", "\u{1c}", "\u{3000}"], 4) {
        assert_eq!(split_words(&s), s.split_whitespace().collect::<Vec<_>>(), "{s:?}");
        assert_eq!(lines_of(&s), s.lines().collect::<Vec<_>>(), "{s:?}");
    }
    for c in '\u{0}'..=char::MAX {
        assert_eq!(is_whitespace(c), c.is_whitespace(), "{c:?}");
    }
    for s in texts(&["+", "-", "0", "1", "9", " ", "_"], 5) {
        let number = s.parse::<u32>().ok().map(u64::from);
        assert_eq!(parse_up_to(&s, u64::from(u32::MAX)), number, "{s:?}");
    }
}

#[test]
fn a_document_of_any_names_reads_back() {
    let parts = [
        "a", ".", "\"", "'", "\n", "\u{e9}", "\u{0}", "\u{7f}", "\\", "#", "[", " ", "=", "\r",
        "\t", "\u{2028}",
    ];
    let names = texts(&parts, 2);
    for (i, name) in names.iter().enumerate() {
        let other = format!("{}x", names[(i * 7 + 3) % names.len()]);
        let count = [0, 1, i64::MAX as u64, i64::MAX as u64 + 1, u64::MAX][i % 5];
        let list = vec![
            (name.clone(), vec![(other.clone(), count), (name.clone(), 3)]),
            (format!("{name}{other}"), Vec::new()),
        ];
        let text = write_doc(&doc_from_list(&list));
        let mut doc = read_doc(&text);
        assert_eq!(doc.section_names().len(), 2, "{text:?}");
        let entries = doc.take_section(name);
        assert_eq!(entries.len(), 2, "{text:?}");
        assert_eq!(entries.get(&other), Some(&count), "{text:?}");
        assert_eq!(entries.get(name), Some(&3), "{text:?}");
    }
}

#[test]
fn a_note_of_any_text_reads_back_from_one_line() {
    for s in texts(&["a", "\"", "\n", "\u{0}", "\\", "\u{2028}", "\t", "\r", "\u{1f600}"], 3) {
        let at = if s.len() % 3 == 0 { None } else { Some((s.clone(), 0, u32::MAX)) };
        let def = Def {
            key: "demo::run".to_string(),
            file: "src/lib.rs".to_string(),
            lo: 1,
            hi: 4,
            descr: "function".to_string(),
            path: "demo::run".to_string(),
            parent: String::new(),
            level: "warn".to_string(),
            notes: vec![Note { help: s.len() % 2 == 0, message: s.clone(), at: at.clone() }],
        };
        let text = write_defs("demo", &vec![def]);
        assert_eq!(text.lines().count(), 2, "{text:?}");
        let note = &read_defs(&text).unwrap().defs[0].notes[0];
        assert_eq!((note.help, &note.message, &note.at), (s.len() % 2 == 0, &s, &at));
    }
}

#[test]
fn every_excerpt_can_be_printed() {
    let parts = ["a", "\n", "\t", "\u{e9}", "\u{1f600}", "\r\n", "\u{200d}", "\u{0}", "\u{1b}"];
    for source in texts(&parts, 3) {
        let n = source.len() as u32;
        for (lo, hi) in (0..=n).flat_map(|lo| (lo..=n).map(move |hi| (lo, hi))) {
            if !span_is_in(&source, lo, hi) {
                continue;
            }
            let excerpt =
                || Excerpt { file: "f.rs".to_string(), source: source.clone(), lo, hi };
            let message = Message {
                severity: Severity::Error,
                text: "found".to_string(),
                code: None,
                at: Some(excerpt()),
                remarks: vec![
                    Remark { help: true, text: source.clone(), at: None },
                    Remark { help: false, text: source.clone(), at: Some(excerpt()) },
                ],
                unit: None,
                closing: false,
            };
            for output in [Output::Human, Output::Short] {
                for styled in [false, true] {
                    let printed = print_message(&message, &Vec::new(), &output, styled);
                    assert!(printed.text.contains("found"), "{source:?} {lo} {hi}");
                }
            }
        }
    }
}
