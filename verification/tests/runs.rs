//! Whole runs: compilations record what they define and use, cargo reports
//! the units it built, and the run is judged, reported and ended.

use mordant::args::{Arg, Command, Output};
use mordant::baseline_file::recorded;
use mordant::cargo_messages::Run;
use mordant::config::{baseline_name, is_disabled};
use mordant::diagnostics::print_message;
use mordant::ending::{end_run, run_status};
use mordant::files::Files;
use mordant::judge::{judge, Records, RunUnit};
use mordant::lint::{key, mode, Item, LevelSource, Post, UnusedPub, Use};
use mordant::over_baseline::{read_counts, Wanted};
use mordant::records::{write_defs, write_over, Def, Unit};
use mordant::sets::TextSet;
use mordant::unused_pub::{baseline_for, report, Baseline, Report};
use mordant::workspace::{Dependency, Metadata, Package};

const ROOT: &str = "/work";
const FACTS: &str = "/work/target/mordant/unused_pub";

/// An item of a crate: its name in the source, its path in the crate, and
/// the impl block it is in, if it is in one.
struct Defined {
    name: &'static str,
    path: &'static str,
    path_in_key: String,
    parent: Option<&'static str>,
    kind: &'static str,
}

fn function(name: &'static str) -> Defined {
    Defined { name, path: name, path_in_key: format!("::{name}"), parent: None, kind: "function" }
}

fn method(name: &'static str, path: &'static str, block: usize, of: &'static str) -> Defined {
    Defined {
        name,
        path,
        path_in_key: format!("::{{impl#{block}}}::{name}"),
        parent: Some(of),
        kind: "method",
    }
}

/// One compilation.
struct Compilation {
    package: &'static str,
    krate: &'static str,
    /// "lib", "bin", "test" or "proc-macro".
    kind: &'static str,
    src: &'static str,
    source: &'static str,
    test: bool,
    extra: &'static str,
    items: Vec<Defined>,
    /// The crate's own items that it uses, by the place of `fn <name>` in
    /// `source` that this ordinal picks.
    own_uses: Vec<(&'static str, usize)>,
    uses: Vec<(&'static str, String)>,
    level: (&'static str, LevelSource),
    allowed: bool,
    section: &'static str,
    over: Option<usize>,
}

fn on_by_default() -> (&'static str, LevelSource) {
    ("warn", LevelSource::Default)
}

fn denied_by_flag() -> (&'static str, LevelSource) {
    (
        "deny",
        LevelSource::CommandLine { value: "warnings".to_string(), flag: "-D".to_string() },
    )
}

fn library(source: &'static str, items: Vec<Defined>) -> Compilation {
    Compilation {
        package: "demo",
        krate: "demo",
        kind: "lib",
        src: "src/lib.rs",
        source,
        test: false,
        extra: "-01",
        items,
        own_uses: Vec::new(),
        uses: Vec::new(),
        level: on_by_default(),
        allowed: false,
        section: "demo",
        over: None,
    }
}

fn binary(source: &'static str, uses: Vec<(&'static str, String)>) -> Compilation {
    Compilation {
        kind: "bin",
        src: "src/main.rs",
        extra: "-02",
        uses,
        section: "demo (bin demo)",
        ..library(source, Vec::new())
    }
}

fn place_of(source: &str, name: &str, nth: usize) -> (u32, u32) {
    let (at, _) = source.match_indices(&format!("fn {name}(")).nth(nth).expect("the item");
    let lo = at as u32 + 3;
    (lo, lo + name.len() as u32)
}

struct Session {
    run: Run,
    records: Files,
    defs: Vec<String>,
    sources: Files,
    metadata: Metadata,
    args: Vec<Arg>,
    output: Output,
    passed_through: String,
    baseline: Baseline,
    write_mode: bool,
    disabled: bool,
}

fn package(name: &str, on: &[&str]) -> Package {
    Package {
        id: format!("path+file:///work/{name}#0.1.0"),
        name: name.to_string(),
        manifest_path: format!("/work/{name}/Cargo.toml"),
        dependencies: on
            .iter()
            .map(|on| Dependency { name: on.to_string(), path: Some(format!("/work/{on}")) })
            .collect(),
    }
}

fn command_line(args: &[&str]) -> Vec<Arg> {
    args.iter()
        .enumerate()
        .map(|(at, text)| Arg { text: text.to_string(), utf8: true, at })
        .collect()
}

fn session_of(packages: Vec<Package>, args: &[&str]) -> Session {
    let mut args = command_line(args);
    assert!(matches!(Command::take(&mut args), Command::Run { fix: false }));
    let output = Output::take(&mut args);
    Session {
        run: Run::new(),
        records: Files::new(),
        defs: Vec::new(),
        sources: Files::new(),
        metadata: Metadata {
            workspace_root: ROOT.to_string(),
            target_directory: "/work/target".to_string(),
            workspace_members: packages.iter().map(|p| p.id.clone()).collect(),
            packages,
        },
        args,
        output,
        passed_through: String::new(),
        baseline: Baseline::Unset,
        write_mode: false,
        disabled: false,
    }
}

fn session(args: &[&str]) -> Session {
    session_of(vec![package("demo", &[])], args)
}

impl Session {
    fn unit(&self, c: &Compilation) -> Unit {
        let src = format!("{ROOT}/{}", c.src);
        Unit {
            canonical: src.clone(),
            src,
            test: c.test,
            extra_filename: c.extra.to_string(),
        }
    }

    /// Cargo builds the unit: its driver records, and its message comes.
    fn compile(&mut self, c: &Compilation) {
        self.record(c);
        self.built(c);
    }

    fn record(&mut self, c: &Compilation) {
        let unit = self.unit(c);
        let in_binary = c.kind == "bin";
        let mut pass = UnusedPub::new();
        let mode = mode(Some(FACTS.to_string()), c.krate, Some(unit.copy()));
        pass.check_crate(c.test, c.kind == "proc-macro", mode, &self.defs);
        for (id, item) in c.items.iter().enumerate() {
            let nth = c.items[..id].iter().filter(|other| other.name == item.name).count();
            let (lo, hi) = place_of(c.source, item.name, nth);
            let own = key(c.krate, in_binary, &item.path_in_key);
            pass.record_def(&Item {
                id: id as u64,
                from_expansion: false,
                reachable: true,
                exempt: false,
                included: false,
                silent: c.allowed,
                expectation: false,
                level: c.level.0.to_string(),
                source: match &c.level.1 {
                    LevelSource::Default => LevelSource::Default,
                    LevelSource::CommandLine { value, flag } => {
                        LevelSource::CommandLine { value: value.clone(), flag: flag.clone() }
                    }
                    LevelSource::Node { attr, at } => {
                        LevelSource::Node { attr: attr.clone(), at: at.clone() }
                    }
                },
                place: Some((c.src.to_string(), lo, hi)),
                key: own,
                krate: c.krate.to_string(),
                path: item.path.to_string(),
                descr: item.kind.to_string(),
                parent: item.parent.map(|of| format!("{}::{of}", c.krate)),
            });
        }
        for (i, (name, nth)) in c.own_uses.iter().enumerate() {
            let (lo, hi) = place_of(c.source, name, *nth);
            pass.record_ref(&Use::Local {
                id: 100 + i as u64,
                reachable: true,
                key: key(c.krate, in_binary, &format!("::{{impl#9}}::{name}")),
                place: Some((c.src.to_string(), lo, hi)),
            });
        }
        pass.record_ref(&Use::Own);
        for (krate, key) in &c.uses {
            pass.record_ref(&Use::Foreign { krate: krate.to_string(), key: key.clone() });
        }
        match pass.check_crate_post(c.section) {
            Post::Write { refs: (path, text), defs } => {
                self.records.add_file(&path, text);
                if let Some((path, text)) = defs {
                    self.defs.push(text.clone());
                    self.records.add_file(&path, text);
                }
            }
            _ => panic!("a run records"),
        }
        let over = write_over(c.over.map(|n| (c.section, n)));
        self.records.add_file(&unit.over(FACTS), over);
        self.sources.add_file(&format!("{ROOT}/{}", c.src), c.source.to_string());
    }

    /// Cargo's message for a unit, compiled now or before.
    fn built(&mut self, c: &Compilation) {
        let package_id = format!("path+file:///work/{}#0.1.0", c.package);
        let file = match c.kind {
            "proc-macro" => format!("lib{}{}.so", c.krate, c.extra),
            _ => format!("lib{}{}.rmeta", c.krate, c.extra),
        };
        let line = format!(
            "{{\"reason\":\"compiler-artifact\",\"package_id\":\"{package_id}\",\
             \"manifest_path\":\"/work/{}/Cargo.toml\",\"target\":{{\"kind\":[\"{}\"],\
             \"name\":\"{}\",\"src_path\":\"{ROOT}/{}\"}},\"profile\":{{\"test\":{}}},\
             \"filenames\":[\"/work/target/mordant/check/debug/deps/{file}\"],\"fresh\":true}}",
            c.package, c.kind, c.krate, c.src, c.test
        );
        self.line(&line);
    }

    fn line(&mut self, line: &str) {
        if self.run.take_line(line, &self.metadata.workspace_members, &self.output) {
            self.passed_through.push_str(line);
            self.passed_through.push('\n');
        }
    }

    fn end(&mut self) -> Ended {
        self.line("{\"reason\": \"build-finished\", \"success\": true}");
        let mut report = Report {
            messages: Vec::new(),
            errors: false,
            lines: Vec::new(),
            baseline: None,
        };
        let n = self.run.units.len();
        if !self.disabled {
            let judged = self.metadata.judged(&self.args, &self.run.units);
            let records = judge(FACTS, &self.run.units, &self.records, &judged);
            report = mordant::unused_pub::report(
                ROOT,
                FACTS,
                n,
                &records,
                &self.sources,
                &self.output,
                &self.baseline,
            );
        }
        let counts =
            read_counts(FACTS, &self.run.units, &self.run.build_scripts, &self.records);
        let ending =
            end_run(ROOT, FACTS, n, report.errors, report.lines, counts, self.write_mode);
        let mut messages = report.messages;
        messages.extend(ending.error);
        let mut stdout = self.passed_through.clone();
        let mut stderr = String::new();
        for message in &messages {
            assert!(message.lies_in_source());
            let printed = print_message(message, &self.run.units, &self.output, false);
            if printed.stdout {
                stdout.push_str(&printed.text);
            } else {
                stderr.push_str(&printed.text);
            }
        }
        if let Some(line) = self.run.closing_line(&self.output, Some(!ending.failed)) {
            stdout.push_str(&line);
            stdout.push('\n');
        }
        Ended {
            stdout,
            stderr,
            status: run_status(ending.failed, true),
            over_baseline: match ending.wanted {
                Wanted::AsItIs => None,
                Wanted::Gone => Some(String::new()),
                Wanted::Text(text) => Some(text),
            },
            baseline: report.baseline,
        }
    }
}

struct Ended {
    stdout: String,
    stderr: String,
    status: u8,
    /// The new text of the status file, empty if there is none, or `None` if
    /// it stays as it was.
    over_baseline: Option<String>,
    baseline: Option<String>,
}

fn success(ended: Ended) -> String {
    assert_eq!(ended.status, 0, "{}", ended.stderr);
    ended.stderr
}

const LIB: &str = "pub fn by_unit_test() {}\n\npub fn by_integration_test() {}\n\n\
                   pub fn by_nothing() {}\n\n\
                   #[cfg(test)]\nmod tests {\n    #[test]\n    fn t() {\n        \
                   super::by_unit_test();\n    }\n}\n";

const BIN: &str = "pub fn by_bin_test() {}\n\nfn main() {}\n\n\
                   #[cfg(test)]\nmod tests {\n    #[test]\n    fn t() {\n        \
                   super::by_bin_test();\n    }\n}\n";

const INTEGRATION_TEST: &str = "#[test]\nfn t() {\n    demo::by_integration_test();\n}\n";

/// The compilations of a package with tests: those of its own targets, and
/// those of its tests.
fn tested() -> (Vec<Compilation>, Vec<Compilation>) {
    let items =
        || vec![function("by_unit_test"), function("by_integration_test"), function("by_nothing")];
    let own = vec![
        library(LIB, items()),
        Compilation { items: vec![function("by_bin_test")], ..binary(BIN, Vec::new()) },
    ];
    let tests = vec![
        Compilation {
            test: true,
            extra: "-03",
            own_uses: vec![("by_unit_test", 0)],
            ..library(LIB, items())
        },
        Compilation {
            test: true,
            extra: "-04",
            items: vec![function("by_bin_test")],
            own_uses: vec![("by_bin_test", 0)],
            ..binary(BIN, Vec::new())
        },
        Compilation {
            krate: "it",
            kind: "test",
            src: "tests/it.rs",
            test: true,
            extra: "-05",
            uses: vec![("demo", "demo::by_integration_test".to_string())],
            ..library(INTEGRATION_TEST, Vec::new())
        },
    ];
    (own, tests)
}

#[test]
fn unused_pub_counts_uses_from_a_binary_named_like_its_library() {
    let mut s = session(&[]);
    s.compile(&library(
        "pub fn called() {}\n\npub fn never_called() {}\n",
        vec![function("called"), function("never_called")],
    ));
    s.compile(&binary(
        "fn main() {\n    demo::called();\n}\n",
        vec![("demo", "demo::called".to_string())],
    ));
    let out = success(s.end());
    assert!(out.contains("`demo::never_called` is public"), "{out}");
    assert!(!out.contains("`demo::called` is public"), "{out}");
}

#[test]
fn unused_pub_counts_what_tests_use_when_they_are_built() {
    let (own, tests) = tested();
    let mut s = session(&["--all-targets"]);
    for c in own.iter().chain(&tests) {
        s.compile(c);
    }
    let all = success(s.end());
    assert!(all.contains("`demo::by_nothing` is public"), "{all}");
    for used in ["by_unit_test", "by_integration_test", "by_bin_test"] {
        assert!(!all.contains(&format!("::{used}` is public")), "{used}: {all}");
    }

    // The records of the tests are there, but the run did not build them.
    s.run = Run::new();
    for c in &own {
        s.built(c);
    }
    let plain = success(s.end());
    for unused in ["by_nothing", "by_unit_test", "by_integration_test", "by_bin_test"] {
        assert!(plain.contains(&format!("::{unused}` is public")), "{unused}: {plain}");
    }
}

#[test]
fn unused_pub_matches_a_unit_tests_use_past_a_cfg_test_impl() {
    let source = "pub struct A;\n\n#[cfg(test)]\nimpl A {\n    fn only_in_tests(&self) {}\n}\n\n\
                  impl A {\n    pub fn get(&self) -> B {\n        B\n    }\n}\n\n\
                  pub struct B;\n\nimpl B {\n    pub fn get(&self) {}\n}\n\n\
                  #[cfg(test)]\nmod tests {\n    #[test]\n    fn t() {\n        \
                  super::A.only_in_tests();\n        let _ = super::A.get();\n    }\n}\n";
    let items = |first: usize| {
        vec![method("get", "A::get", first, "A"), method("get", "B::get", first + 1, "B")]
    };
    let mut s = session(&["--all-targets"]);
    s.compile(&library(source, items(0)));
    s.compile(&Compilation {
        test: true,
        extra: "-03",
        own_uses: vec![("get", 0)],
        ..library(source, items(1))
    });
    let out = success(s.end());
    assert!(out.contains("`demo::B::get` is public"), "{out}");
    assert!(!out.contains("`demo::A::get` is public"), "{out}");
}

#[test]
fn unused_pub_unions_uses_from_abort_and_unwind_builds() {
    let source = "pub fn by_abort() {}\n\
                  pub fn by_unwind() {}\n\
                  pub fn start() {\n    #[cfg(panic = \"abort\")]\n    by_abort();\n    \
                  #[cfg(panic = \"unwind\")]\n    by_unwind();\n}\n";
    let build = |extra: &'static str, used: &'static str| Compilation {
        extra,
        own_uses: vec![(used, 0)],
        level: denied_by_flag(),
        ..library(source, vec![function("by_abort"), function("by_unwind"), function("start")])
    };
    let mut s = session(&["--all-targets"]);
    s.compile(&build("-01", "by_abort"));
    s.compile(&build("-02", "by_unwind"));
    s.compile(&Compilation {
        krate: "it",
        kind: "test",
        src: "tests/it.rs",
        test: true,
        extra: "-03",
        uses: vec![("demo", "demo::start".to_string())],
        ..library("#[test]\nfn t() { demo::start(); }\n", Vec::new())
    });
    let stderr = success(s.end());
    assert!(!stderr.contains("`demo::by_abort` is public"), "{stderr}");
    assert!(!stderr.contains("`demo::by_unwind` is public"), "{stderr}");
}

#[test]
fn unused_pub_knows_one_item_under_the_keys_of_two_targets() {
    let source = "pub struct A;\n\n#[cfg(windows)]\nimpl A {\n    pub fn only_there(&self) {}\n}\n\n\
                  impl A {\n    pub fn by_windows(&self) {}\n\n    pub fn by_nothing(&self) {}\n}\n";
    let a = |extra: &'static str, items: Vec<Defined>| Compilation {
        package: "a",
        krate: "a",
        src: "a/src/lib.rs",
        extra,
        section: "a",
        ..library(source, items)
    };
    let b = |extra: &'static str, uses: Vec<(&'static str, String)>| Compilation {
        package: "b",
        krate: "b",
        src: "b/src/main.rs",
        extra,
        section: "b (bin b)",
        ..binary("fn main() {}\n", uses)
    };
    let packages = vec![package("a", &[]), package("b", &["a"]), package("c", &["a"])];
    let mut s = session_of(packages, &["--workspace"]);
    s.compile(&a(
        "-01",
        vec![
            method("by_windows", "A::by_windows", 0, "A"),
            method("by_nothing", "A::by_nothing", 0, "A"),
        ],
    ));
    s.compile(&a(
        "-02",
        vec![
            method("only_there", "A::only_there", 0, "A"),
            method("by_windows", "A::by_windows", 1, "A"),
            method("by_nothing", "A::by_nothing", 1, "A"),
        ],
    ));
    s.compile(&b("-01", vec![("a", "a::A".to_string())]));
    s.compile(&b(
        "-02",
        vec![
            ("a", "a::{impl#0}::only_there".to_string()),
            ("a", "a::{impl#1}::by_windows".to_string()),
        ],
    ));
    let out = success(s.end());
    assert_eq!(out.matches("`a::A::by_nothing` is public").count(), 1, "{out}");
    assert!(!out.contains("`a::A::by_windows` is public"), "{out}");
    assert!(!out.contains("`a::A::only_there` is public"), "{out}");
}

#[test]
fn unused_pub_judges_a_member_only_with_its_dependents_in_the_run() {
    let a = || Compilation {
        package: "a",
        krate: "a",
        src: "a/src/lib.rs",
        section: "a",
        ..library(
            "pub fn by_b() {}\n\npub fn by_nothing() {}\n",
            vec![function("by_b"), function("by_nothing")],
        )
    };
    let b = || Compilation {
        package: "b",
        krate: "b",
        src: "b/src/main.rs",
        section: "b (bin b)",
        ..binary(
            "fn main() {\n    a::by_b();\n}\n",
            vec![("a", "a::by_b".to_string())],
        )
    };
    let packages = || vec![package("a", &[]), package("b", &["a"]), package("c", &["a"])];
    for run in [&["-p", "a"][..], &["--workspace", "--exclude", "b"][..]] {
        let mut s = session_of(packages(), run);
        s.compile(&a());
        let out = success(s.end());
        assert!(!out.contains("is public, but"), "{run:?}: {out}");
    }

    let mut s = session_of(packages(), &["--workspace"]);
    s.compile(&a());
    s.compile(&b());
    let whole = success(s.end());
    assert!(whole.contains("`a::by_nothing` is public"), "{whole}");
    assert!(!whole.contains("`a::by_b` is public"), "{whole}");
}

#[test]
fn unused_pub_findings_are_compiler_messages_in_json() {
    let (own, _) = tested();
    let mut s = session(&["--message-format=json"]);
    for c in &own {
        s.compile(c);
    }
    let out = s.end();
    assert_eq!(out.status, 0, "{}", out.stderr);
    let messages: Vec<serde_json::Value> = out
        .stdout
        .lines()
        .map(|line| serde_json::from_str(line).expect("every stdout line is JSON"))
        .collect();
    assert!(messages.iter().any(|m| m["reason"] == "compiler-artifact"));
    let finding = messages
        .iter()
        .find(|m| m["reason"] == "compiler-message" && m["message"]["code"]["code"] == "unused_pub")
        .expect("an unused_pub compiler-message");
    assert!(
        finding["package_id"].as_str().is_some_and(|id| id.contains("demo")),
        "{finding}"
    );
    assert_eq!(finding["message"]["spans"][0]["file_name"], "src/lib.rs");
    assert_eq!(finding["message"]["spans"][0]["line_start"], 1);
    assert_eq!(finding["message"]["spans"][0]["column_start"], 8);
    assert_eq!(finding["message"]["level"], "warning");
    assert_eq!(finding["target"]["kind"][0], "lib");
    assert_eq!(messages.last().unwrap()["reason"], "build-finished");
    assert_eq!(messages.last().unwrap()["success"], true);
    assert!(out.stderr.is_empty(), "{}", out.stderr);
}

#[test]
fn unused_pub_findings_fail_the_run_under_deny_warnings() {
    let (own, tests) = tested();
    let mut s = session(&["--all-targets"]);
    for c in own.into_iter().chain(tests) {
        s.compile(&Compilation { level: denied_by_flag(), ..c });
    }
    let out = s.end();
    assert_eq!(out.status, 101);
    let stderr = out.stderr;
    assert!(stderr.contains("error: function `demo::by_nothing` is public"), "{stderr}");
    assert!(stderr.contains("`-D unused-pub` implied by `-D warnings`"), "{stderr}");
    assert!(stderr.contains("to override `-D warnings` add `#[allow(unused_pub)]`"), "{stderr}");
    assert!(stderr.contains("error: `unused_pub` generated 1 error"), "{stderr}");
}

#[test]
fn unused_pub_names_the_units_whose_records_are_missing() {
    let (own, tests) = tested();
    let mut s = session(&["--all-targets"]);
    for c in own.iter().chain(&tests) {
        s.compile(c);
    }
    success(s.end());
    let counts: Vec<(String, String)> = own
        .iter()
        .chain(&tests)
        .map(|c| s.unit(c).over(FACTS))
        .map(|path| (path.clone(), s.records.read(&path).unwrap().clone()))
        .collect();
    s.records = Files::new();
    for (path, text) in counts {
        s.records.add_file(&path, text);
    }
    let out = s.end();
    let stderr = out.stderr;
    assert_eq!(out.status, 101, "{stderr}");
    assert!(
        stderr.contains("error: mordant: `unused_pub` did not judge the workspace"),
        "{stderr}"
    );
    // Named once, though the run built it twice: on its own and as a test.
    assert_eq!(stderr.matches("`src/lib.rs`").count(), 1, "{stderr}");
    assert!(stderr.contains("remove `/work/target/mordant`"), "{stderr}");
    assert!(!stderr.contains("is public, but"), "{stderr}");
}

#[test]
fn unused_pub_disabled() {
    for config in ["[mordant]\ndisabled = [\"unused_pub\"]\n", "[mordant]\ndisabled = [\"group:unused\"]\n"] {
        let mut s = session(&[]);
        s.disabled = is_disabled(config, "unused_pub", "unused");
        let c = Compilation {
            level: denied_by_flag(),
            ..library("pub fn unused() {}\n", vec![function("unused")])
        };
        let unit = s.unit(&c);
        s.records.add_file(&unit.over(FACTS), write_over(None));
        s.built(&c);
        let stderr = success(s.end());
        assert!(!stderr.contains("is public"), "{stderr}");
        assert!(!stderr.contains("did not judge the workspace"), "{stderr}");
    }
}

#[test]
fn over_baseline_is_not_written_when_the_counts_are_missing() {
    let mut s = session(&[]);
    let c = Compilation { over: Some(1), ..binary("fn main() {}\n", Vec::new()) };
    s.compile(&c);
    let first = s.end();
    assert_eq!(first.status, 101);
    assert_eq!(first.over_baseline.as_deref(), Some("demo (bin demo) 1\n"));

    let refs = s.unit(&c).refs(FACTS);
    let text = s.records.read(&refs).unwrap().clone();
    s.records = Files::new();
    s.records.add_file(&refs, text);
    let out = s.end();
    let stderr = out.stderr;
    assert_eq!(out.status, 101, "{stderr}");
    assert!(stderr.contains("error: mordant: `over-baseline.txt` was not written"), "{stderr}");
    assert!(stderr.contains("`src/main.rs`"), "{stderr}");
    assert!(!stderr.contains("did not judge the workspace"), "{stderr}");
    assert!(out.over_baseline.is_none());
}

#[test]
fn over_baseline_is_not_written_when_a_count_is_not_a_number() {
    let mut s = session(&[]);
    let c = Compilation { over: Some(1), ..binary("fn main() {}\n", Vec::new()) };
    s.compile(&c);
    let path = s.unit(&c).over(FACTS);
    let count = s.records.read(&path).unwrap().clone();
    let (section, _) = count.split_once('\t').unwrap();
    s.records.add_file(&path, format!("{section}\tnot a number\n"));
    let out = s.end();
    let stderr = out.stderr;
    assert_eq!(out.status, 101, "{stderr}");
    assert!(stderr.contains("error: mordant: `over-baseline.txt` was not written"), "{stderr}");
    assert!(stderr.contains("`src/main.rs`"), "{stderr}");
    assert!(out.over_baseline.is_none());
}

#[test]
fn over_baseline_not_written_is_a_compiler_message_in_json() {
    let mut s = session(&["--message-format=json"]);
    let c = Compilation { over: Some(1), ..binary("fn main() {}\n", Vec::new()) };
    s.compile(&c);
    let path = s.unit(&c).over(FACTS);
    s.records.add_file(&path, "damaged".to_string());
    let out = s.end();
    let messages: Vec<serde_json::Value> = out
        .stdout
        .lines()
        .map(|line| serde_json::from_str(line).expect("every stdout line is JSON"))
        .collect();
    assert_eq!(out.status, 101);
    let error = messages.iter().position(|m| {
        m["reason"] == "compiler-message"
            && m["message"]["level"] == "error"
            && m["message"]["message"]
                .as_str()
                .is_some_and(|text| text.contains("`over-baseline.txt` was not written"))
    });
    let finished = messages.iter().position(|m| m["reason"] == "build-finished");
    let (Some(error), Some(finished)) = (error, finished) else {
        panic!("{}", out.stdout);
    };
    assert_eq!(messages[finished]["success"], false, "{}", out.stdout);
    assert!(error < finished, "{}", out.stdout);
}

#[test]
fn a_crate_over_the_baseline_fails_the_run_in_json() {
    let mut s = session(&["--message-format=json"]);
    s.compile(&Compilation { over: Some(1), ..binary("fn main() {}\n", Vec::new()) });
    for run in ["the run that compiled the crate", "the run that compiled nothing again"] {
        s.passed_through = String::new();
        let out = s.end();
        assert_eq!(out.status, 101, "{run}, stderr:\n{}", out.stderr);
        let messages: Vec<serde_json::Value> = out
            .stdout
            .lines()
            .map(|line| serde_json::from_str(line).expect("every stdout line is JSON"))
            .collect();
        let error = messages.iter().position(|m| {
            m["reason"] == "compiler-message"
                && m["message"]["level"] == "error"
                && m["message"]["message"]
                    .as_str()
                    .is_some_and(|text| text.contains("finding(s) over the baseline in"))
        });
        let finished = messages.iter().position(|m| m["reason"] == "build-finished");
        let (Some(error), Some(finished)) = (error, finished) else {
            panic!("{run}: {}", out.stdout);
        };
        assert!(error < finished, "{run}: {}", out.stdout);
        assert_eq!(messages[finished]["success"], false, "{run}: {}", out.stdout);
        assert_eq!(out.over_baseline.as_deref(), Some("demo (bin demo) 1\n"));
    }
}

#[test]
fn over_baseline_holds_a_build_script_past_its_baseline_count() {
    let mut s = session(&[]);
    s.compile(&binary("fn main() {}\n", Vec::new()));
    let script = Unit {
        src: "/work/build.rs".to_string(),
        canonical: "/work/build.rs".to_string(),
        test: false,
        extra_filename: String::new(),
    };
    s.records.add_file(&script.over(FACTS), write_over(Some(("build_script_build", 1))));
    s.line(
        "{\"reason\":\"compiler-artifact\",\"package_id\":\"path+file:///work/demo#0.1.0\",\
         \"manifest_path\":\"/work/demo/Cargo.toml\",\"target\":{\"kind\":[\"custom-build\"],\
         \"name\":\"build-script-build\",\"src_path\":\"/work/build.rs\"},\
         \"profile\":{\"test\":false},\"filenames\":[\"/x/build-script-build\"]}",
    );
    assert_eq!(s.run.units.len(), 1);
    let out = s.end();
    assert_eq!(out.status, 101);
    assert_eq!(out.over_baseline.as_deref(), Some("build_script_build 1\n"));
    assert!(
        out.stderr.contains("error: mordant: 1 finding(s) over the baseline in `build_script_build`"),
        "{}",
        out.stderr
    );
}

#[test]
fn over_baseline_is_written_when_unused_pub_is_disabled() {
    let config = "[mordant]\nbaseline = \"mordant-baseline.toml\"\ndisabled = [\"unused_pub\"]\n";
    assert_eq!(baseline_name(config).as_deref(), Some("mordant-baseline.toml"));
    let mut s = session(&[]);
    s.disabled = is_disabled(config, "unused_pub", "unused");
    s.baseline = Baseline::Held(recorded("").unwrap());
    s.compile(&Compilation { over: Some(1), ..binary("fn main() {}\n", Vec::new()) });
    let out = s.end();
    assert_eq!(out.status, 101);
    assert_eq!(out.over_baseline.as_deref(), Some("demo (bin demo) 1\n"));
}

#[test]
fn a_crate_allowing_unused_pub_still_records_its_uses() {
    let mut s = session(&[]);
    s.compile(&library(
        "pub fn called() {}\n\npub fn never_called() {}\n",
        vec![function("called"), function("never_called")],
    ));
    s.compile(&Compilation {
        allowed: true,
        items: vec![function("hidden")],
        ..binary(
            "#![allow(unknown_lints, unused_pub)]\n\npub fn hidden() {}\n\n\
             fn main() {\n    demo::called();\n}\n",
            vec![("demo", "demo::called".to_string())],
        )
    });
    let out = success(s.end());
    assert!(out.contains("`demo::never_called` is public"), "{out}");
    assert!(!out.contains("`demo::called` is public"), "{out}");
    assert!(!out.contains("hidden"), "{out}");
    assert!(!out.contains("did not judge"), "{out}");
}

#[test]
fn unused_pub_is_held_to_the_baseline() {
    let mut present = TextSet::new();
    present.insert("/work/mordant.toml");
    let none = Files::new();
    let name = Some("mordant-baseline.toml");
    let mut s = session(&[]);
    s.baseline = baseline_for(ROOT, name, true, &present, &none).unwrap();
    match &s.baseline {
        Baseline::Write { path, existing } => {
            assert_eq!(path, "/work/mordant-baseline.toml");
            assert_eq!(existing, "");
        }
        _ => panic!("the run writes the baseline"),
    }
    s.write_mode = true;
    s.compile(&library("pub fn old() {}\n", vec![function("old")]));
    let written = s.end();
    let baseline = written.baseline.clone().unwrap();
    assert!(written.over_baseline.is_none());
    let written = success(written);
    assert!(!written.contains("is public"), "{written}");
    assert!(baseline.contains("[demo]"), "{baseline}");
    assert!(baseline.contains("\"unused_pub:src/lib.rs\" = 1"), "{baseline}");

    present.insert("/work/mordant-baseline.toml");
    let mut files = Files::new();
    files.add_file("/work/mordant-baseline.toml", baseline);
    s.write_mode = false;
    s.baseline = baseline_for(ROOT, name, false, &present, &files).unwrap();
    let held = s.end();
    assert_eq!(held.over_baseline.as_deref(), Some(""));
    let held = success(held);
    assert!(!held.contains("is public"), "{held}");

    // Above the recorded one: the baseline holds a count and not which
    // findings, so it cannot take the first one in the file for the old one.
    let mut s = Session {
        baseline: s.baseline,
        ..session(&[])
    };
    s.compile(&library(
        "pub fn new() {}\n\npub fn old() {}\n",
        vec![function("new"), function("old")],
    ));
    let out = s.end();
    assert_eq!(out.status, 101);
    let over = out.stderr;
    assert!(
        over.contains("`unused_pub` over the mordant baseline (1 recorded for src/lib.rs)"),
        "{over}"
    );
    for shown in ["`demo::new` is public", "`demo::old` is public"] {
        assert!(over.contains(shown), "{shown}: {over}");
    }
    assert!(
        over.contains("2 `unused_pub` findings in src/lib.rs, and the baseline allows 1"),
        "{over}"
    );
    assert!(over.contains("warning: mordant: 1 finding(s) over the baseline in demo"), "{over}");
    assert!(over.contains("error: mordant: 1 finding(s) over the baseline in `demo`"), "{over}");
    assert!(over.contains("warning: `unused_pub` generated 2 warnings"), "{over}");
    assert_eq!(out.over_baseline.as_deref(), Some("demo 1\n"));
}

#[test]
fn unused_pub_reports_a_level_set_in_the_source() {
    let source = "#![cfg_attr(mordant, deny(unused_pub))]\n\npub fn unused() {}\n";
    let at = source.find("unused_pub").unwrap() as u32;
    let mut s = session(&[]);
    s.compile(&Compilation {
        level: (
            "deny",
            LevelSource::Node {
                attr: "unused_pub".to_string(),
                at: Some(("src/lib.rs".to_string(), at, at + 10)),
            },
        ),
        ..library(source, vec![function("unused")])
    });
    let out = s.end();
    let stderr = out.stderr;
    assert_eq!(out.status, 101, "{stderr}");
    assert!(stderr.contains("error: function `demo::unused` is public"), "{stderr}");
    assert!(stderr.contains("note: the lint level is defined here"), "{stderr}");
    assert!(stderr.contains("--> src/lib.rs:1:27"), "{stderr}");
    assert!(stderr.contains("--> src/lib.rs:3:8"), "{stderr}");
}

#[test]
fn unused_pub_counts_a_proc_macro_built_only_for_its_dependent() {
    for run in [&["-p", "app", "-p", "demo"][..], &["--workspace"][..]] {
        let packages = vec![
            package("demo", &[]),
            package("demo_macros", &["demo"]),
            package("app", &["demo_macros"]),
        ];
        let mut s = session_of(packages, run);
        s.compile(&Compilation {
            src: "demo/src/lib.rs",
            ..library(
                "pub fn used_by_macro() {}\n\npub fn unused() {}\n",
                vec![function("used_by_macro"), function("unused")],
            )
        });
        s.compile(&Compilation {
            package: "demo_macros",
            krate: "demo_macros",
            kind: "proc-macro",
            src: "demo_macros/src/lib.rs",
            uses: vec![("demo", "demo::used_by_macro".to_string())],
            ..library("pub fn m(input: TokenStream) -> TokenStream {}\n", vec![function("m")])
        });
        s.compile(&Compilation {
            package: "app",
            krate: "app",
            src: "app/src/main.rs",
            ..binary("fn main() {}\n", Vec::new())
        });
        let out = success(s.end());
        assert!(out.contains("`demo::unused` is public"), "{run:?}: {out}");
        assert!(!out.contains("`demo::used_by_macro` is public"), "{run:?}: {out}");
        assert!(!out.contains("`demo_macros::m` is public"), "{run:?}: {out}");
    }
}

#[test]
fn a_finding_is_printed_as_the_compiler_would() {
    let mut s = session(&[]);
    s.compile(&library("pub fn lonely() {}\n", vec![function("lonely")]));
    let out = success(s.end());
    assert!(
        out.starts_with(
            "warning: function `demo::lonely` is public, but nothing in the workspace uses it\n"
        ),
        "{out}"
    );
    for part in [
        "--> src/lib.rs:1:8",
        "1 | pub fn lonely() {}",
        "^^^^^^",
        "= help: remove it; if code under a `cfg`, target or feature not compiled here uses it, \
         gate the item the same way",
        "= note: `#[warn(unused_pub)]` on by default",
    ] {
        assert!(out.contains(part), "{part}: {out}");
    }
    assert!(out.ends_with("\n\nwarning: `unused_pub` generated 1 warning\n"), "{out}");
}

#[test]
fn a_finding_is_printed_short_when_asked() {
    let mut s = session(&["--message-format", "short"]);
    s.compile(&library("pub fn lonely() {}\n", vec![function("lonely")]));
    let out = success(s.end());
    assert!(out.contains("src/lib.rs:1:8: warning: function `demo::lonely` is public"), "{out}");
    assert!(!out.contains("pub fn lonely"), "{out}");
}

#[test]
fn a_finding_whose_file_is_gone_is_said_without_it() {
    let mut s = session(&[]);
    s.compile(&library("pub fn lonely() {}\n", vec![function("lonely")]));
    s.sources = Files::new();
    let out = success(s.end());
    assert_eq!(
        out,
        "warning: mordant: function `demo::lonely` is public, but nothing in the workspace uses \
         it (src/lib.rs could not be read)\n\n"
    );
}

#[test]
fn members_of_an_unused_type_go_with_it() {
    let source = "pub struct A;\nimpl A {\n    pub fn get(&self) {}\n}\npub fn f() -> A {\n    A\n}\n";
    let mut s = session(&[]);
    s.compile(&library(
        "pub fn fn_like() {}\npub fn inner() {}\n",
        vec![
            function("fn_like"),
            Defined { parent: Some("fn_like"), ..function("inner") },
        ],
    ));
    let out = success(s.end());
    assert!(out.contains("`demo::fn_like` is public"), "{out}");
    assert!(!out.contains("`demo::inner` is public"), "{out}");

    let mut s = session(&[]);
    s.compile(&library(source, vec![method("get", "A::get", 0, "A"), function("f")]));
    let out = success(s.end());
    assert!(out.contains("`demo::A::get` is public"), "{out}");
}

#[test]
fn the_order_of_the_units_does_not_change_the_findings() {
    let (own, _) = tested();
    let mut one = session(&[]);
    let mut other = session(&[]);
    for c in &own {
        one.record(c);
        other.record(c);
    }
    for c in &own {
        one.built(c);
    }
    for c in own.iter().rev() {
        other.built(c);
    }
    assert_eq!(success(one.end()), success(other.end()));
}

/// A unit that defines the items, each a key, a file and a place.
fn defining(n: usize, items: &[(&str, &str, u32)], records: &mut Files) -> RunUnit {
    let src = format!("/work/src/{n}.rs");
    let unit = Unit {
        src: src.clone(),
        canonical: src,
        test: false,
        extra_filename: format!("-{n}"),
    };
    let defs = items
        .iter()
        .map(|(key, file, lo)| Def {
            key: key.to_string(),
            file: file.to_string(),
            lo: *lo,
            hi: lo + 1,
            descr: "function".to_string(),
            path: key.to_string(),
            parent: String::new(),
            level: "warn".to_string(),
            notes: Vec::new(),
        })
        .collect();
    records.add_file(&unit.defs(FACTS), write_defs(&format!("section {n}"), &defs));
    records.add_file(&unit.refs(FACTS), String::new());
    RunUnit {
        unit,
        package_id: "demo".to_string(),
        manifest_path: "/work/Cargo.toml".to_string(),
        target: "{}".to_string(),
    }
}

/// What a run of the units finds, and in which sections.
fn judged_places(units: &Vec<RunUnit>, records: &Files) -> (Vec<(String, u32, String)>, usize) {
    let mut judged = TextSet::new();
    judged.insert("demo");
    match judge(FACTS, units, records, &judged) {
        Records::Missing(srcs) => panic!("{srcs:?}"),
        Records::Judged { unused, sections } => (
            unused.into_iter().map(|f| (f.def.file, f.def.lo, f.def.key)).collect(),
            sections.len(),
        ),
    }
}

#[test]
fn findings_are_by_file_place_and_key_and_the_least_key_stands_for_an_item() {
    let mut records = Files::new();
    let first = defining(
        1,
        &[("demo::z", "src/b.rs", 4), ("demo::{impl#2}::run", "src/a.rs", 30)],
        &mut records,
    );
    let second = defining(
        2,
        &[
            ("demo::{impl#1}::run", "src/a.rs", 30),
            ("demo::late", "src/a.rs", 100),
            ("other::run", "src/a.rs", 30),
        ],
        &mut records,
    );
    let expected: Vec<(String, u32, String)> = [
        ("src/a.rs", 30, "demo::{impl#1}::run"),
        ("src/a.rs", 30, "other::run"),
        ("src/a.rs", 100, "demo::late"),
        ("src/b.rs", 4, "demo::z"),
    ]
    .into_iter()
    .map(|(file, lo, key)| (file.to_string(), lo, key.to_string()))
    .collect();
    let mut units = vec![first, second];
    assert_eq!(judged_places(&units, &records), (expected.clone(), 2));
    units.reverse();
    assert_eq!(judged_places(&units, &records), (expected, 2));
}

#[test]
fn a_test_target_without_a_harness_is_recorded_as_the_plain_unit() {
    let mut s = session(&["--all-targets"]);
    s.compile(&library("pub fn run() {}\n", vec![function("run")]));
    let c = Compilation {
        krate: "it",
        kind: "test",
        src: "tests/it.rs",
        extra: "-05",
        uses: vec![("demo", "demo::run".to_string())],
        ..library("fn main() {\n    demo::run();\n}\n", Vec::new())
    };
    s.record(&c);
    s.built(&Compilation { test: true, ..c });
    let out = success(s.end());
    assert!(!out.contains("is public"), "{out}");
}

#[test]
fn the_records_of_a_unit_are_missing_or_judged() {
    let mut s = session(&[]);
    let c = library("pub fn run() {}\n", vec![function("run")]);
    s.built(&c);
    let judged = s.metadata.judged(&s.args, &s.run.units);
    match judge(FACTS, &s.run.units, &s.records, &judged) {
        Records::Missing(srcs) => assert_eq!(srcs, vec!["/work/src/lib.rs"]),
        Records::Judged { .. } => panic!("there is no record"),
    }
    s.record(&c);
    match judge(FACTS, &s.run.units, &s.records, &judged) {
        Records::Missing(_) => panic!("there is a record"),
        Records::Judged { unused, sections } => {
            assert_eq!(unused.len(), 1);
            assert_eq!(unused[0].def.key, "demo::run");
            assert_eq!(unused[0].section, "demo");
            assert_eq!(unused[0].unit, 0);
            assert_eq!(sections.len(), 1);
            assert!(sections.has("demo"));
        }
    }
}

#[test]
fn a_message_without_a_unit_is_printed_in_json_too() {
    let mut s = session(&["--message-format=json"]);
    let records = Records::Missing(vec!["/work/src/lib.rs".to_string()]);
    let said = report(ROOT, FACTS, 0, &records, &s.sources, &s.output, &Baseline::Unset);
    assert!(said.errors);
    let printed = print_message(&said.messages[0], &s.run.units, &s.output, false);
    assert!(!printed.stdout);
    assert!(printed.text.starts_with("error: mordant: `unused_pub` did not judge"));
    assert_eq!(s.end().status, 0);
}
