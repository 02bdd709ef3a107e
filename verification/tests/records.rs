use mordant::records::{
    all_def_keys, crate_name_of, position_key, read_defs, read_over, read_refs, write_defs,
    write_over, write_refs, Def, Note, Over, Unit,
};
use mordant::sets::TextSet;

fn def(key: &str, file: &str, lo: u32, notes: Vec<Note>) -> Def {
    Def {
        key: key.to_string(),
        file: file.to_string(),
        lo,
        hi: lo + 3,
        descr: "function".to_string(),
        path: key.to_string(),
        parent: String::new(),
        level: "warn".to_string(),
        notes,
    }
}

fn unit(src: &str, test: bool, extra: &str) -> Unit {
    Unit {
        src: src.to_string(),
        canonical: src.to_string(),
        test,
        extra_filename: extra.to_string(),
    }
}

#[test]
fn items_are_written_a_line_each_and_read_back() {
    let notes = vec![
        Note {
            help: false,
            message: "tab\there, line\nthere, \"quoted\"".to_string(),
            at: Some(("src/lib.rs".to_string(), 3, 7)),
        },
        Note { help: true, message: "to override".to_string(), at: None },
    ];
    let mut second = def("demo::{impl#0}::get", "src/lib.rs", 40, Vec::new());
    second.parent = "demo::A".to_string();
    let text = write_defs("demo", &vec![def("demo::run", "src/lib.rs", 7, notes), second]);
    let lines: Vec<&str> = text.lines().collect();
    assert_eq!(lines.len(), 3);
    assert_eq!(lines[0], "demo");
    assert!(lines[1].starts_with("demo::run\tsrc/lib.rs\t7\t10\tfunction\tdemo::run\t\twarn\t["));
    assert_eq!(
        lines[2],
        "demo::{impl#0}::get\tsrc/lib.rs\t40\t43\tfunction\tdemo::{impl#0}::get\tdemo::A\twarn\t[]"
    );

    let defs = read_defs(&text).unwrap();
    assert_eq!(defs.section, "demo");
    assert_eq!(defs.defs.len(), 2);
    assert_eq!(defs.defs[0].key, "demo::run");
    assert_eq!(defs.defs[0].lo, 7);
    assert_eq!(defs.defs[0].hi, 10);
    assert_eq!(defs.defs[0].notes.len(), 2);
    assert_eq!(defs.defs[0].notes[0].message, "tab\there, line\nthere, \"quoted\"");
    assert_eq!(defs.defs[0].notes[0].at, Some(("src/lib.rs".to_string(), 3, 7)));
    assert!(defs.defs[0].notes[1].help);
    assert_eq!(defs.defs[1].parent, "demo::A");
}

#[test]
fn notes_are_written_as_objects_and_read_as_objects_or_lists() {
    let notes = vec![
        Note {
            help: false,
            message: "a \"quoted\" \u{1f}\u{e9}\\".to_string(),
            at: Some(("src/lib.rs".to_string(), 3, 7)),
        },
        Note { help: true, message: String::new(), at: None },
    ];
    let text = write_defs("demo", &vec![def("demo::run", "src/lib.rs", 7, notes)]);
    let json = text.lines().nth(1).unwrap().rsplit('\t').next().unwrap();
    assert_eq!(
        json,
        concat_texts(&[
            "[{\"help\":false,\"message\":\"a \\\"quoted\\\" \\u001f\u{e9}\\\\\",",
            "\"at\":[\"src/lib.rs\",3,7]},",
            "{\"help\":true,\"message\":\"\",\"at\":null}]",
        ])
    );
    let line = "demo::run\tsrc/lib.rs\t7\t10\tfunction\tdemo::run\t\twarn\t";
    let read = |notes: &str| read_defs(&format!("demo\n{line}{notes}\n")).unwrap().defs;
    let listed = read("[[true,\"m\",null], {\"message\":\"n\",\"help\":false}]");
    assert_eq!(listed[0].notes.len(), 2);
    assert!(listed[0].notes[0].help && listed[0].notes[0].message == "m");
    assert!(!listed[0].notes[1].help && listed[0].notes[1].message == "n");
    assert_eq!(listed[0].notes[1].at, None);
    assert!(read("[{\"help\":1,\"message\":\"n\"}]").is_empty());
    assert!(read("[{\"help\":true}]").is_empty());
}

fn concat_texts(parts: &[&str]) -> String {
    parts.concat()
}

#[test]
fn a_tab_in_a_section_and_a_return_inside_a_field_read_back() {
    let mut item = def("demo::run", "src/a\rb.rs", 7, Vec::new());
    item.path = "demo::\rrun".to_string();
    let text = write_defs("demo\t(bin \r demo)", &vec![item]);
    let defs = read_defs(&text).unwrap();
    assert_eq!(defs.section, "demo\t(bin \r demo)");
    assert_eq!(defs.defs.len(), 1);
    assert_eq!(defs.defs[0].file, "src/a\rb.rs");
    assert_eq!(defs.defs[0].path, "demo::\rrun");
    let mut keys = TextSet::new();
    keys.insert("demo::\ta\rb");
    keys.insert("");
    assert_eq!(read_refs(&write_refs(&keys)), vec!["".to_string(), "demo::\ta\rb".to_string()]);
}

#[test]
fn lines_that_are_no_items_are_left_out() {
    assert!(read_defs("").is_none());
    let text = "demo\n\
                too\tfew\n\
                k\tf\tx\t2\td\tp\t\twarn\t[]\n\
                k\tf\t1\t4294967296\td\tp\t\twarn\t[]\n\
                k\tf\t1\t2\td\tp\t\twarn\tno json\n\
                k\tf\t1\t2\td\tp\tparent\tdeny\t[]\tmore\n";
    let defs = read_defs(text).unwrap();
    assert_eq!(defs.section, "demo");
    assert_eq!(defs.defs.len(), 1);
    assert_eq!(defs.defs[0].parent, "parent");
    assert_eq!(defs.defs[0].level, "deny");
}

#[test]
fn uses_are_written_sorted_and_once() {
    let mut refs = TextSet::new();
    for key in ["b::two", "a::one", "b::two", "a@src/lib.rs:3"] {
        refs.insert(key);
    }
    let text = write_refs(&refs);
    assert_eq!(text, "a::one\na@src/lib.rs:3\nb::two\n");
    assert_eq!(read_refs(&text), vec!["a::one", "a@src/lib.rs:3", "b::two"]);
    assert_eq!(read_refs("a\r\nb"), vec!["a", "b"]);
    assert!(read_refs("").is_empty());
}

#[test]
fn a_count_over_the_baseline_reads_back() {
    let text = write_over(Some(("demo (bin demo)", 3)));
    assert_eq!(text, "demo (bin demo)\t3\n");
    match read_over(&text) {
        Some(Over::Count { section, count }) => {
            assert_eq!(section, "demo (bin demo)");
            assert_eq!(count, 3);
        }
        _ => panic!("no count"),
    }
    assert_eq!(write_over(None), "");
    assert!(matches!(read_over(""), Some(Over::Nothing)));
}

#[test]
fn anything_else_is_no_count() {
    for text in ["demo\t3", "demo 3\n", "demo\tnot a number\n", "demo\t\n", "demo\t-1\n", "\n"] {
        assert!(read_over(text).is_none(), "{text:?}");
    }
    for text in ["demo\t+5\n", "demo\t05\n", "demo\t00\n", "demo\t 5\n", "demo\t5\r\n"] {
        assert!(read_over(text).is_none(), "{text:?}");
    }
    assert!(matches!(read_over("demo\t0\n"), Some(Over::Count { count: 0, .. })));
    let most = format!("demo\t{}\n", u64::MAX);
    assert!(matches!(read_over(&most), Some(Over::Count { .. })));
    assert!(read_over("demo\t18446744073709551616\n").is_none());
}

#[test]
fn an_item_is_placed_by_its_crate_and_its_name() {
    assert_eq!(position_key("demo", "src/lib.rs", 12), "demo@src/lib.rs:12");
    assert_eq!(def("demo::a::run", "src/a.rs", 4, Vec::new()).position_key(), "demo@src/a.rs:4");
    assert_eq!(
        def("tool[bin]::run", "src/main.rs", 0, Vec::new()).position_key(),
        "tool[bin]@src/main.rs:0"
    );
    assert_eq!(crate_name_of("demo::a::run"), "demo");
    assert_eq!(crate_name_of("demo"), "demo");
    assert_eq!(crate_name_of("a:b::c"), "a:b");
}

#[test]
fn a_units_files_share_a_stem() {
    let own = unit("/w/src/lib.rs", false, "-0a");
    let dir = "/w/target/mordant/unused_pub";
    let stem = own.stem();
    assert_eq!(stem.len(), 16);
    assert!(stem.chars().all(|c| c.is_ascii_hexdigit() && !c.is_ascii_uppercase()));
    assert_eq!(own.defs(dir), format!("{dir}/{stem}.defs"));
    assert_eq!(own.refs(dir), format!("{dir}/{stem}.refs"));
    assert_eq!(own.over(dir), format!("/w/target/mordant/over_baseline_counts/{stem}.over"));
}

#[test]
fn units_that_differ_have_files_of_their_own() {
    let units = [
        unit("/w/src/lib.rs", false, "-0a"),
        unit("/w/src/lib.rs", true, "-0a"),
        unit("/w/src/lib.rs", false, "-0b"),
        unit("/w/src/main.rs", false, "-0a"),
    ];
    for (i, a) in units.iter().enumerate() {
        for (j, b) in units.iter().enumerate() {
            assert_eq!(i == j, a.stem() == b.stem());
        }
    }
    assert_eq!(units[1].plain().stem(), units[0].stem());
    let mut relative = unit("/w/src/lib.rs", false, "-0a");
    relative.src = "src/lib.rs".to_string();
    assert_eq!(relative.stem(), units[0].stem());
    assert_eq!(units[0].copy().stem(), units[0].stem());
    assert_eq!(unit("/w//src/./lib.rs", false, "-0a").stem(), units[0].stem());
    assert_eq!(unit("/w/src/lib.rs/", false, "-0a").stem(), units[0].stem());
    assert_ne!(unit("w/src/lib.rs", false, "-0a").stem(), units[0].stem());
    assert_ne!(unit("/w/src/../src/lib.rs", false, "-0a").stem(), units[0].stem());
}

#[test]
fn the_keys_of_every_record_are_known() {
    let texts = vec![
        write_defs("a", &vec![def("a::x", "a.rs", 1, Vec::new())]),
        String::new(),
        write_defs("b", &vec![def("b::y", "b.rs", 1, Vec::new()), def("a::x", "b.rs", 9, Vec::new())]),
    ];
    let keys = all_def_keys(&texts);
    assert_eq!(keys.len(), 2);
    assert!(keys.has("a::x") && keys.has("b::y"));
    assert!(!keys.has("a"));
    assert_eq!(keys.at(0), "a::x");
}
