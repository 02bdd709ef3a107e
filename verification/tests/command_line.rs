use mordant::args::{is_given, option_value, option_values, styled, Arg, Command, Output, Value};
use mordant::judge::RunUnit;
use mordant::records::Unit;
use mordant::workspace::{Dependency, Metadata, Package};

fn line(args: &[&str]) -> Vec<Arg> {
    args.iter()
        .enumerate()
        .map(|(at, text)| Arg { text: text.to_string(), utf8: true, at })
        .collect()
}

fn texts(args: &[Arg]) -> Vec<&str> {
    args.iter().map(|a| a.text.as_str()).collect()
}

fn values(args: &[&str], name: &str) -> Vec<String> {
    option_values(&line(args), name).into_iter().map(|v| v.text).collect()
}

#[test]
fn an_options_values_are_read_in_both_forms() {
    let args = ["--exclude", "a", "--exclude=b", "--excluded=c", "--exclude", "--exclude"];
    assert_eq!(values(&args, "--exclude"), vec!["a", "b", "--exclude"]);
    assert_eq!(values(&["--exclude"], "--exclude"), Vec::<String>::new());
    assert_eq!(values(&["--color="], "--color"), vec![""]);
    let first = option_value(&line(&["-q", "--target-dir", "t", "--target-dir=u"]), "--target-dir");
    let first = first.unwrap();
    assert_eq!(first.text, "t");
    assert_eq!(first.at, Some(2));
    assert!(option_value(&line(&["--target"]), "--target-dir").is_none());
    let inline = option_value(&line(&["--target-dir=u"]), "--target-dir").unwrap();
    assert_eq!(inline.text, "u");
    assert_eq!(inline.at, None);
}

#[test]
fn an_argument_that_is_no_text_names_no_option() {
    let mut args = line(&["--exclude=b", "--exclude", "c"]);
    args[0].utf8 = false;
    args[2].utf8 = false;
    let found = option_values(&args, "--exclude");
    assert_eq!(found.len(), 1);
    assert!(!found[0].utf8);
    assert!(!is_given(&args, "--exclude=b"));
    assert!(is_given(&args, "--exclude"));
}

#[test]
fn every_message_format_is_taken_out() {
    let mut args = line(&[
        "--workspace",
        "--message-format",
        "short",
        "-q",
        "--message-format=json-render-diagnostics",
    ]);
    match Output::take(&mut args) {
        Output::Json(value) => assert_eq!(value, "short,json-render-diagnostics"),
        _ => panic!("JSON was asked for"),
    }
    assert_eq!(texts(&args), vec!["--workspace", "-q"]);
    assert_eq!(args[1].at, 3);
}

#[test]
fn the_output_is_what_the_formats_ask_for() {
    let output = |list: &[&str]| {
        let mut args = line(list);
        Output::take(&mut args)
    };
    assert!(matches!(output(&[]), Output::Human));
    assert!(matches!(output(&["--message-format=human"]), Output::Human));
    assert!(matches!(output(&["--message-format=human,short"]), Output::Short));
    assert!(matches!(output(&["--message-format=shorter"]), Output::Human));
    assert!(matches!(output(&["--message-format", "json"]), Output::Json(_)));
    assert!(matches!(output(&["--message-format"]), Output::Human));
    assert_eq!(output(&[]).for_cargo(), "json-render-diagnostics");
    assert_eq!(
        output(&["--message-format=short"]).for_cargo(),
        "json-diagnostic-short,json-render-diagnostics"
    );
    assert_eq!(
        output(&["--message-format=json-diagnostic-rendered-ansi"]).for_cargo(),
        "json-diagnostic-rendered-ansi"
    );
}

#[test]
fn a_last_format_without_a_value_stays() {
    let mut args = line(&["-q", "--message-format"]);
    Output::take(&mut args);
    assert_eq!(texts(&args), vec!["-q", "--message-format"]);
}

#[test]
fn colour_is_as_asked_or_as_the_terminal_is() {
    let value = |text: &str| Value { text: text.to_string(), utf8: true, at: None };
    let (always, never, auto) = (value("always"), value("never"), value("auto"));
    assert!(styled(Some(&always), Some(&never), false));
    assert!(!styled(Some(&never), Some(&always), true));
    assert!(styled(None, Some(&always), false));
    assert!(!styled(None, Some(&never), true));
    assert!(styled(Some(&auto), Some(&never), true));
    assert!(!styled(None, None, false));
    let broken = Value { utf8: false, ..value("always") };
    assert!(!styled(Some(&broken), None, false));
}

#[test]
fn the_command_is_read_off_the_arguments() {
    let mut args = line(&["mordant", "--fix", "--workspace", "--fix", "mordant"]);
    assert!(matches!(Command::take(&mut args), Command::Run { fix: true }));
    assert_eq!(texts(&args), vec!["--workspace", "mordant"]);
    let command = |list: &[&str]| Command::take(&mut line(list));
    assert!(matches!(command(&["mordant"]), Command::Run { fix: false }));
    assert!(matches!(command(&["--list"]), Command::List));
    assert!(matches!(command(&["--list", "-V"]), Command::Version));
    assert!(matches!(command(&["--version", "-h"]), Command::Help));
    assert!(matches!(command(&["mordant", "--help"]), Command::Help));
}

fn package(name: &str, dependencies: Vec<Dependency>) -> Package {
    Package {
        id: format!("{name}#1"),
        name: name.to_string(),
        manifest_path: format!("/w/{name}/Cargo.toml"),
        dependencies,
    }
}

fn on_path(name: &str, path: &str) -> Dependency {
    Dependency { name: name.to_string(), path: Some(path.to_string()) }
}

fn on_name(name: &str) -> Dependency {
    Dependency { name: name.to_string(), path: None }
}

fn metadata(packages: Vec<Package>) -> Metadata {
    Metadata {
        workspace_root: "/w".to_string(),
        target_directory: "/w/target".to_string(),
        workspace_members: packages.iter().map(|p| p.id.clone()).collect(),
        packages,
    }
}

fn built(names: &[&str]) -> Vec<RunUnit> {
    names
        .iter()
        .map(|name| RunUnit {
            unit: Unit {
                src: format!("/w/{name}/src/lib.rs"),
                canonical: format!("/w/{name}/src/lib.rs"),
                test: false,
                extra_filename: String::new(),
            },
            package_id: format!("{name}#1"),
            manifest_path: format!("/w/{name}/Cargo.toml"),
            target: "{}".to_string(),
        })
        .collect()
}

/// `a`, which `b` depends on, which `c` depends on, and `d` on its own.
fn chain() -> Metadata {
    metadata(vec![
        package("a", vec![on_name("serde")]),
        package("b", vec![on_path("a", "/w/a")]),
        package("c", vec![on_path("renamed", "/w/b"), on_name("b")]),
        package("d", Vec::new()),
    ])
}

fn judged(meta: &Metadata, args: &[&str], units: &[&str]) -> Vec<String> {
    let ids = meta.judged(&line(args), &built(units));
    (0..ids.len()).map(|i| ids.at(i).clone()).collect()
}

#[test]
fn a_run_over_the_workspace_judges_every_member() {
    let all = vec!["a#1", "b#1", "c#1", "d#1"];
    assert_eq!(judged(&chain(), &["--workspace"], &["a", "b", "c", "d"]), all);
    assert_eq!(judged(&chain(), &["--all"], &[]), all);
    assert_eq!(judged(&chain(), &[], &["a", "b", "c", "d"]), all);
}

#[test]
fn a_member_left_out_keeps_what_it_depends_on_from_being_judged() {
    assert_eq!(
        judged(&chain(), &["--workspace", "--exclude", "c"], &["a", "b", "d"]),
        vec!["c#1", "d#1"]
    );
    assert_eq!(judged(&chain(), &["-p", "a"], &["a"]), vec!["c#1", "d#1"]);
    assert_eq!(
        judged(&chain(), &["--workspace", "--exclude=d"], &["a", "b", "c"]),
        vec!["a#1", "b#1", "c#1", "d#1"]
    );
}

#[test]
fn an_exclusion_that_is_no_plain_name_is_read_off_the_units() {
    assert_eq!(
        judged(&chain(), &["--workspace", "--exclude", "c*"], &["a", "b", "d"]),
        vec!["c#1", "d#1"]
    );
    let left = chain().left_out(&line(&["--workspace", "--exclude", "x*"]), &built(&["a"]));
    assert_eq!(left.len(), 3);
    assert!(left.has("b#1") && left.has("c#1") && left.has("d#1"));
    let named = chain().left_out(&line(&["--workspace", "--exclude", "b_-9"]), &built(&["a"]));
    assert_eq!(named.len(), 0);
}

#[test]
fn members_that_depend_on_each_other_are_followed_once() {
    let meta = metadata(vec![
        package("a", vec![on_path("b", "/w/b")]),
        package("b", vec![on_path("a", "/w/a/")]),
        package("c", vec![on_name("a")]),
    ]);
    assert_eq!(judged(&meta, &[], &["a", "b", "c"]), vec!["a#1", "b#1", "c#1"]);
    assert_eq!(judged(&meta, &[], &["a", "b"]), vec!["c#1"]);
}
