use mordant::args::Output;
use mordant::cargo_messages::{build_script_of, extra_filename, unit_of, CargoMessage, Run};

fn text(s: &str) -> Option<String> {
    Some(s.to_string())
}

fn artifact(name: &str, kind: &str, files: &[&str]) -> CargoMessage {
    CargoMessage {
        reason: text("compiler-artifact"),
        package_id: text("demo#1"),
        manifest_path: text("/w/Cargo.toml"),
        target: "{\"kind\":[]}".to_string(),
        target_name: text(name),
        src_path: text("/w/src/lib.rs"),
        kinds: Some(vec![text(kind)]),
        test: Some(false),
        filenames: Some(files.iter().map(|f| text(f)).collect()),
    }
}

fn members() -> Vec<String> {
    vec!["other#1".to_string(), "demo#1".to_string()]
}

#[test]
fn the_hash_is_read_off_a_file_name() {
    let extra = |name: &str, files: &[&str]| extra_filename(&artifact(name, "lib", files));
    assert_eq!(extra("demo", &["/t/libdemo-0af.rmeta"]), text("-0af"));
    assert_eq!(extra("demo", &["/t/demo-0af"]), None);
    assert_eq!(extra("demo", &["/t/demo-0af.exe"]), text("-0af"));
    assert_eq!(extra("demo-macros", &["/t/libdemo_macros-9.dylib"]), text("-9"));
    assert_eq!(extra("demo", &["/t/libdemo.rlib"]), text(""));
    assert_eq!(extra("demo", &["/t/demo-1.dll.lib"]), text("-1"));
    assert_eq!(extra("demo", &["/t/libdemo_macros-9.so"]), None);
    assert_eq!(extra("demo", &["/t/other.so", "/t/libdemo-7.so"]), text("-7"));
    assert_eq!(extra("demo", &[]), None);
    let mut unnamed = artifact("demo", "lib", &["/t/libdemo-0af.rmeta"]);
    unnamed.target_name = None;
    assert_eq!(extra_filename(&unnamed), None);
}

#[test]
fn an_artifact_of_a_member_is_a_unit() {
    let unit = unit_of(&artifact("demo", "lib", &["/t/libdemo-1.rmeta"]), &members()).unwrap();
    assert_eq!(unit.unit.src, "/w/src/lib.rs");
    assert_eq!(unit.unit.extra_filename, "-1");
    assert!(!unit.unit.test);
    assert_eq!(unit.package_id, "demo#1");
    assert_eq!(unit.manifest_path, "/w/Cargo.toml");
    assert_eq!(unit.target, "{\"kind\":[]}");
}

#[test]
fn any_other_message_is_no_unit() {
    let good = || artifact("demo", "lib", &["/t/libdemo-1.rmeta"]);
    assert!(unit_of(&good(), &vec!["other#1".to_string()]).is_none());
    let changed = |change: &dyn Fn(&mut CargoMessage)| {
        let mut message = good();
        change(&mut message);
        unit_of(&message, &members()).is_none()
    };
    assert!(!changed(&|_| {}));
    assert!(changed(&|m| m.reason = text("compiler-message")));
    assert!(changed(&|m| m.reason = None));
    assert!(changed(&|m| m.package_id = None));
    assert!(changed(&|m| m.kinds = None));
    assert!(changed(&|m| m.kinds = Some(vec![text("lib"), text("custom-build")])));
    assert!(changed(&|m| m.src_path = None));
    assert!(changed(&|m| m.test = None));
    assert!(changed(&|m| m.filenames = None));
    assert!(changed(&|m| m.manifest_path = None));
}

#[test]
fn a_build_script_is_a_unit_of_its_own_sort() {
    let script = artifact("build-script-build", "custom-build", &["/t/build-script-build"]);
    assert!(unit_of(&script, &members()).is_none());
    let unit = build_script_of(&script, &members()).unwrap();
    assert_eq!(unit.src, "/w/src/lib.rs");
    assert!(!unit.test);
    assert_eq!(unit.extra_filename, "");
    assert!(build_script_of(&artifact("demo", "lib", &[]), &members()).is_none());
    assert!(build_script_of(&script, &Vec::new()).is_none());
}

const ARTIFACT: &str = "{\"reason\": \"compiler-artifact\", \"package_id\": \"demo#1\", \
    \"manifest_path\": \"/w/Cargo.toml\", \"target\": {\"name\": \"demo\", \"kind\": [\"lib\"], \
    \"src_path\": \"/w/src/lib.rs\"}, \"profile\": {\"test\": true}, \
    \"filenames\": [\"/t/libdemo-1.rmeta\"]}";

#[test]
fn units_are_read_off_the_lines() {
    let mut run = Run::new();
    let json = Output::Json("json".to_string());
    assert!(run.take_line(ARTIFACT, &members(), &json));
    assert!(run.take_line("no json", &members(), &json));
    assert!(run.take_line("[1, 2]", &members(), &json));
    assert_eq!(run.units.len(), 1);
    assert!(run.units[0].unit.test);
    assert_eq!(
        run.units[0].target,
        "{\"kind\":[\"lib\"],\"name\":\"demo\",\"src_path\":\"/w/src/lib.rs\"}"
    );
    assert!(!run.take_line(ARTIFACT, &members(), &Output::Human));
    assert!(!run.take_line(ARTIFACT, &members(), &Output::Short));
    assert_eq!(run.units.len(), 3);
    assert!(run.build_scripts.is_empty());
}

#[test]
fn the_closing_line_is_held_back() {
    let mut run = Run::new();
    let json = Output::Json("json".to_string());
    assert!(run.closing_line(&json, Some(true)).is_none());
    let line = "{\"success\": true, \"reason\": \"build-finished\"}";
    assert!(!run.take_line(line, &members(), &json));
    assert_eq!(
        run.closing_line(&json, Some(false)),
        text("{\"reason\":\"build-finished\",\"success\":false}")
    );
    assert_eq!(
        run.closing_line(&json, None),
        text("{\"reason\":\"build-finished\",\"success\":true}")
    );
    assert!(run.closing_line(&Output::Human, Some(true)).is_none());
}
