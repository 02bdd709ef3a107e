use mordant::driver::{
    build_id, incremental_dir, is_info_query, is_stale, print_lints, requested, split_words, Lint,
    Request,
};
use mordant::protocol::{CONFIG_ENV, FACTS_ENV, LINTING_CFG, LIST_ARG, RUSTFLAGS_ENV};

fn args(list: &[&str]) -> Vec<String> {
    list.iter().map(|s| s.to_string()).collect()
}

#[test]
fn questions_about_the_compiler_are_told_apart() {
    assert!(is_info_query(&args(&["rustc", "-vV"])));
    assert!(is_info_query(&args(&["rustc", "--print", "sysroot"])));
    assert!(is_info_query(&args(&["rustc", "--print=cfg", "-"])));
    assert!(!is_info_query(&args(&["rustc", "--print", "crate-root-lint-levels"])));
    assert!(!is_info_query(&args(&["rustc", "--print=crate-root-lint-levels"])));
    assert!(!is_info_query(&args(&["rustc", "--print"])));
    assert!(!is_info_query(&args(&["rustc", "--printer", "x"])));
    assert!(!is_info_query(&args(&["rustc", "src/lib.rs", "--crate-name", "demo"])));
    assert!(is_info_query(&args(&["--print=crate-root-lint-levels", "--print", "cfg"])));
    assert!(!is_info_query(&args(&[])));
}

#[test]
fn the_list_is_asked_for_alone() {
    assert!(matches!(requested(args(&["driver", LIST_ARG]), None), Request::List));
    assert!(matches!(requested(args(&["driver", LIST_ARG, "x"]), None), Request::Lint(_)));
}

#[test]
fn the_compilers_path_is_taken_off() {
    match requested(args(&["driver", "/t/bin/rustc", "-vV"]), Some("-D warnings")) {
        Request::Plain(passed) => assert_eq!(passed, args(&["driver", "-vV"])),
        _ => panic!("it is a question"),
    }
    match requested(args(&["driver", "/t/bin/rustc.exe", "src/lib.rs"]), None) {
        Request::Lint(passed) => assert_eq!(passed, args(&["driver", "src/lib.rs", LINTING_CFG])),
        _ => panic!("it is a compilation"),
    }
    match requested(args(&["rustc", "/t/rustc2"]), None) {
        Request::Lint(passed) => assert_eq!(passed, args(&["rustc", "/t/rustc2", LINTING_CFG])),
        _ => panic!("it is a compilation"),
    }
}

#[test]
fn a_linted_crate_gets_the_cfg_and_the_flags() {
    assert_eq!(LINTING_CFG, "--cfg=mordant");
    match requested(args(&["driver", "src/lib.rs", "--test"]), Some(" -D\twarnings \n-A x")) {
        Request::Lint(passed) => assert_eq!(
            passed,
            args(&[
                "driver",
                "src/lib.rs",
                "--test",
                "--cfg=mordant",
                "--cap-lints",
                "allow",
                "-D",
                "warnings",
                "-A",
                "x",
            ])
        ),
        _ => panic!("it is a compilation"),
    }
}

#[test]
fn flags_are_split_on_whitespace() {
    assert_eq!(split_words("-D warnings"), args(&["-D", "warnings"]));
    assert_eq!(split_words("  a\u{2003}b\u{85}c "), args(&["a", "b", "c"]));
    assert!(split_words(" \t\r\n").is_empty());
    assert!(split_words("").is_empty());
}

fn lint(declared: &str, level: &str, desc: &str) -> Lint {
    Lint {
        declared: declared.to_string(),
        name: declared.to_lowercase(),
        level: level.to_string(),
        desc: desc.to_string(),
    }
}

#[test]
fn list_prints_each_lint_with_its_level() {
    let stdout = print_lints(vec![
        lint("UNUSED_PUB", "warn", "a public item that no crate in the workspace uses"),
        lint("DISCARDED_ERROR", "allow", "an error that nothing reads"),
    ]);
    let mut lines = stdout.lines();
    assert_eq!(lines.next(), Some("mordant"));
    let names: Vec<&str> = lines
        .map(|line| {
            assert!(line.starts_with("    "), "{line:?}");
            let mut words = line.split_whitespace();
            let name = words.next().expect("a name");
            assert!(
                matches!(words.next(), Some("warn" | "allow" | "deny" | "forbid")),
                "{line:?}"
            );
            name
        })
        .collect();
    assert!(names.contains(&"discarded_error"), "{names:?}");
    assert!(names.contains(&"unused_pub"), "{names:?}");
    assert_eq!(
        stdout,
        "mordant\n\
         \u{20}   discarded_error    allow    an error that nothing reads\n\
         \u{20}   unused_pub         warn     a public item that no crate in the workspace uses\n"
    );
    assert_eq!(print_lints(Vec::new()), "mordant\n");
}

#[test]
fn lints_are_listed_by_their_declared_names() {
    let stdout = print_lints(vec![lint("A_B", "warn", "x"), lint("AB", "warn", "y")]);
    assert_eq!(stdout, "mordant\n    ab     warn    y\n    a_b    warn    x\n");
}

#[test]
fn each_build_of_the_driver_has_its_own_cache() {
    let one = build_id(Some("100 5"));
    let other = build_id(Some("100 6"));
    assert_ne!(one, other);
    assert_eq!(one, build_id(Some("100 5")));
    assert_eq!(build_id(None), build_id(None));
    assert_eq!(incremental_dir(0xab), "mordant-driver-00000000000000ab");
    assert!(!is_stale(&incremental_dir(one), one));
    assert!(is_stale(&incremental_dir(other), one));
    assert!(is_stale("mordant-driver-", one));
    assert!(!is_stale("demo-1abc", one));
}

#[test]
fn the_variables_have_their_names() {
    assert_eq!(CONFIG_ENV, "MORDANT_TOML");
    assert_eq!(FACTS_ENV, "MORDANT_UNUSED_PUB_FACTS");
    assert_eq!(RUSTFLAGS_ENV, "MORDANT_RUSTFLAGS");
}
