use mordant::args::Output;
use mordant::diagnostics::{
    child, diagnostic, emit, how_rendered, lay_out, print_message, print_rendered, span, Mark,
    Message, Remark, Severity,
};
use mordant::excerpt::{span_is_in, Excerpt};
use mordant::json::{array_text, field_text, object_text};
use mordant::judge::RunUnit;
use mordant::records::Unit;

const SOURCE: &str = "fn a() {}\n\u{e9}\u{1f600}x fn b(\n    c: u8,\n) {}\nend";

fn excerpt(lo: u32, hi: u32) -> Excerpt {
    Excerpt { file: "src/lib.rs".to_string(), source: SOURCE.to_string(), lo, hi }
}

fn at(part: &str) -> Excerpt {
    let lo = SOURCE.find(part).unwrap() as u32;
    excerpt(lo, lo + part.len() as u32)
}

fn unit(package: &str) -> RunUnit {
    RunUnit {
        unit: Unit {
            src: "/w/src/lib.rs".to_string(),
            canonical: "/w/src/lib.rs".to_string(),
            test: false,
            extra_filename: String::new(),
        },
        package_id: package.to_string(),
        manifest_path: "/w/Cargo.toml".to_string(),
        target: "{\"kind\":[\"lib\"]}".to_string(),
    }
}

fn message(unit: Option<usize>) -> Message {
    Message {
        severity: Severity::Error,
        text: "found \"it\"".to_string(),
        code: Some("unused_pub".to_string()),
        at: Some(at("fn b")),
        remarks: vec![
            Remark { help: true, text: "remove it".to_string(), at: None },
            Remark { help: false, text: "set here".to_string(), at: Some(at("a()")) },
        ],
        unit,
        closing: false,
    }
}

#[test]
fn a_span_fits_where_its_bytes_are_characters() {
    assert!(span_is_in(SOURCE, 0, SOURCE.len() as u32));
    assert!(span_is_in("", 0, 0));
    assert!(!span_is_in(SOURCE, 2, 1));
    assert!(!span_is_in(SOURCE, 0, SOURCE.len() as u32 + 1));
    assert!(!span_is_in(SOURCE, 11, 12));
    assert!(span_is_in(SOURCE, 10, 12));
}

#[test]
fn lines_and_columns_count_from_one_and_in_characters() {
    let e = at("fn b");
    assert_eq!((e.line(e.lo), e.column(e.lo)), (2, 5));
    assert_eq!((e.line(e.hi), e.column(e.hi)), (2, 9));
    assert_eq!((e.line(0), e.column(0)), (1, 1));
    assert_eq!((e.line(10), e.column(10)), (2, 1));
}

#[test]
fn every_line_of_a_span_is_marked() {
    let lines = at("b(\n    c: u8,\n)").marked_lines();
    let marked: Vec<(&str, u64, u64)> =
        lines.iter().map(|l| (l.text.as_str(), l.start, l.end)).collect();
    assert_eq!(
        marked,
        vec![("\u{e9}\u{1f600}x fn b(", 8, 10), ("    c: u8,", 1, 11), (") {}", 1, 2)]
    );
    let last = at("nd").marked_lines();
    assert_eq!(last.len(), 1);
    assert_eq!((last[0].text.as_str(), last[0].start, last[0].end), ("end", 2, 4));
}

#[test]
fn a_span_is_json_in_the_compilers_shape() {
    let json: serde_json::Value = serde_json::from_str(&span(&at("fn b"))).unwrap();
    assert_eq!(json["file_name"], "src/lib.rs");
    assert_eq!(json["byte_start"], 18);
    assert_eq!(json["byte_end"], 22);
    assert_eq!(json["line_start"], 2);
    assert_eq!(json["line_end"], 2);
    assert_eq!(json["column_start"], 5);
    assert_eq!(json["column_end"], 9);
    assert_eq!(json["is_primary"], true);
    assert_eq!(json["text"][0]["text"], "\u{e9}\u{1f600}x fn b(");
    assert_eq!(json["text"][0]["highlight_start"], 5);
    assert_eq!(json["text"][0]["highlight_end"], 9);
    for key in ["label", "suggested_replacement", "suggestion_applicability", "expansion"] {
        assert!(json[key].is_null());
        assert!(json.as_object().unwrap().contains_key(key));
    }
    assert_eq!(json.as_object().unwrap().len(), 13);
}

#[test]
fn a_remark_is_a_child_in_json() {
    let bare = Remark { help: true, text: "a \"help\"\n".to_string(), at: None };
    assert_eq!(
        child(&bare),
        "{\"children\":[],\"code\":null,\"level\":\"help\",\"message\":\"a \\\"help\\\"\\n\",\
         \"rendered\":null,\"spans\":[]}"
    );
    let placed = Remark { help: false, text: "here".to_string(), at: Some(at("a()")) };
    let json: serde_json::Value = serde_json::from_str(&child(&placed)).unwrap();
    assert_eq!(json["level"], "note");
    assert_eq!(json["spans"][0]["column_start"], 4);
}

#[test]
fn a_message_is_a_diagnostic_in_json() {
    let json: serde_json::Value =
        serde_json::from_str(&diagnostic(&message(Some(0)), "error: found")).unwrap();
    assert_eq!(json["$message_type"], "diagnostic");
    assert_eq!(json["message"], "found \"it\"");
    assert_eq!(json["code"]["code"], "unused_pub");
    assert!(json["code"]["explanation"].is_null());
    assert_eq!(json["level"], "error");
    assert_eq!(json["spans"].as_array().unwrap().len(), 1);
    assert_eq!(json["children"].as_array().unwrap().len(), 2);
    assert_eq!(json["children"][0]["message"], "remove it");
    assert_eq!(json["rendered"], "error: found");

    let plain = Message {
        severity: Severity::Warning,
        code: None,
        at: None,
        remarks: Vec::new(),
        ..message(None)
    };
    assert_eq!(
        diagnostic(&plain, "r"),
        "{\"$message_type\":\"diagnostic\",\"children\":[],\"code\":null,\"level\":\"warning\",\
         \"message\":\"found \\\"it\\\"\",\"rendered\":\"r\",\"spans\":[]}"
    );
}

#[test]
fn a_compiler_message_is_for_its_units_package() {
    let text = emit(&unit("demo#1"), &message(Some(0)), "a\nb");
    assert!(!text.contains('\n'));
    let json: serde_json::Value = serde_json::from_str(&text).unwrap();
    assert_eq!(json["reason"], "compiler-message");
    assert_eq!(json["package_id"], "demo#1");
    assert_eq!(json["manifest_path"], "/w/Cargo.toml");
    assert_eq!(json["target"]["kind"][0], "lib");
    assert_eq!(json["message"]["rendered"], "a\nb");
}

#[test]
fn json_goes_to_stdout_and_text_to_stderr() {
    let units = vec![unit("a#1"), unit("b#1")];
    let json = Output::Json("json".to_string());
    let out = print_rendered(&message(Some(1)), &units, &json, "text");
    assert!(out.stdout);
    assert!(out.text.ends_with("}\n"));
    assert!(out.text.contains("\"package_id\":\"b#1\""));

    let out = print_rendered(&message(Some(1)), &units, &Output::Human, "text");
    assert!(!out.stdout);
    assert_eq!(out.text, "text\n\n");
    let out = print_rendered(&message(None), &units, &json, "text");
    assert!(!out.stdout);
    let closing = Message { closing: true, ..message(None) };
    assert_eq!(print_rendered(&closing, &units, &Output::Short, "text").text, "text\n");
}

#[test]
fn remarks_with_a_place_are_sections_of_their_own() {
    let sections = lay_out(&message(Some(0)));
    assert_eq!(sections.len(), 2);
    assert!(matches!(sections[0].mark, Mark::Error));
    assert_eq!(sections[0].title, "found \"it\"");
    assert_eq!(sections[0].at.as_ref().map(|e| e.lo), Some(18));
    assert_eq!(sections[0].lines.len(), 1);
    assert!(sections[0].lines[0].help);
    assert_eq!(sections[0].lines[0].text, "remove it");
    assert!(matches!(sections[1].mark, Mark::Note));
    assert_eq!(sections[1].at.as_ref().map(|e| e.lo), Some(3));
    assert!(sections[1].lines.is_empty());
    assert_eq!(sections[1].title, "set here");
}

#[test]
fn a_message_is_rendered_for_a_person() {
    let units = vec![unit("a#1")];
    let printed = print_message(&message(Some(0)), &units, &Output::Human, false);
    let text = printed.text;
    for part in [
        "error: found \"it\"\n",
        "--> src/lib.rs:2:5",
        "= help: remove it",
        "note: set here",
        "--> src/lib.rs:1:4",
        "1 | fn a() {}",
    ] {
        assert!(text.contains(part), "{part}: {text}");
    }
    let short = print_message(&message(Some(0)), &units, &Output::Short, false).text;
    assert!(short.starts_with("src/lib.rs:2:5: error: found \"it\""), "{short}");
    let coloured = print_message(&message(Some(0)), &units, &Output::Human, true).text;
    assert!(coloured.contains("\u{1b}["), "{coloured}");
    assert!(!text.contains("\u{1b}["), "{text}");
}

/// A text without its colours.
fn without_colours(text: &str) -> String {
    let mut parts = text.split("\u{1b}[");
    let mut out = parts.next().unwrap().to_string();
    for part in parts {
        out.push_str(part.split_once('m').unwrap().1);
    }
    out
}

#[test]
fn in_colour_a_message_says_what_it_says_without() {
    let units = vec![unit("a#1")];
    for output in [Output::Human, Output::Short] {
        let print = |styled| print_message(&message(Some(0)), &units, &output, styled).text;
        let coloured = print(true);
        assert!(coloured.contains("\u{1b}["), "{coloured}");
        assert_eq!(without_colours(&coloured), print(false));
    }
}

#[test]
fn how_a_message_is_rendered_is_up_to_the_output() {
    let json = |format: &str| Output::Json(format.to_string());
    for styled in [false, true] {
        assert_eq!(how_rendered(&message(Some(0)), &Output::Human, styled), (styled, false));
        assert_eq!(how_rendered(&message(Some(0)), &Output::Short, styled), (styled, true));
        assert_eq!(how_rendered(&message(Some(0)), &json("json"), styled), (false, false));
        assert_eq!(
            how_rendered(&message(Some(0)), &json("json-diagnostic-rendered-ansi"), styled),
            (true, false)
        );
        assert_eq!(
            how_rendered(&message(Some(0)), &json("json,json-diagnostic-short"), styled),
            (false, true)
        );
        assert_eq!(how_rendered(&message(None), &json("json"), styled), (styled, false));
    }
}

#[test]
fn the_rendered_text_in_json_is_plain_unless_asked() {
    let units = vec![unit("a#1")];
    let rendered = |format: &str| {
        let output = Output::Json(format.to_string());
        let printed = print_message(&message(Some(0)), &units, &output, true);
        let json: serde_json::Value = serde_json::from_str(&printed.text).unwrap();
        json["message"]["rendered"].as_str().unwrap().to_string()
    };
    assert!(!rendered("json").contains("\u{1b}["));
    assert!(rendered("json-diagnostic-rendered-ansi").contains("\u{1b}["));
    assert!(rendered("json,json-diagnostic-short").starts_with("src/lib.rs:2:5: error"));
}

#[test]
fn a_message_tells_whether_it_lies_in_its_source() {
    assert!(message(None).lies_in_source());
    let past = Message { at: Some(excerpt(0, 999)), ..message(None) };
    assert!(!past.lies_in_source());
    let remark = Remark { help: false, text: String::new(), at: Some(excerpt(11, 12)) };
    let split = Message { at: None, remarks: vec![remark], ..message(None) };
    assert!(!split.lies_in_source());
}

#[test]
fn levels_that_fail_the_build_are_errors() {
    for (level, word) in
        [("deny", "error"), ("forbid", "error"), ("warn", "warning"), ("force-warn", "warning")]
    {
        assert_eq!(Severity::of(level).word(), word);
    }
    assert!(matches!(Severity::of("deny").mark(), Mark::Error));
    assert!(matches!(Severity::of("").mark(), Mark::Warning));
}

#[test]
fn json_is_put_together_from_its_parts() {
    let fields = vec![field_text("a", "1"), field_text("b", "[]")];
    assert_eq!(object_text(&fields), "{\"a\":1,\"b\":[]}");
    assert_eq!(object_text(&Vec::new()), "{}");
    assert_eq!(array_text(&vec!["1".to_string(), "2".to_string()]), "[1,2]");
    assert_eq!(array_text(&Vec::new()), "[]");
}
