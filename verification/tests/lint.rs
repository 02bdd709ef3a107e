use mordant::lint::{
    counted_unit, enclosing_impl, exempt, included, is_checked_impl_item, is_checked_item,
    is_checked_trait_item, key, level_source, locate, mode, owning_item, parent_key, path_is_use,
    section_name, Around, Enclosing, Item, ItemKind, LevelSource, Mode, Post, Recording, UnusedPub,
    Use,
};
use mordant::records::{read_defs, write_defs, Def, Unit};

fn unit() -> Unit {
    Unit {
        src: "/w/src/lib.rs".to_string(),
        canonical: "/w/src/lib.rs".to_string(),
        test: false,
        extra_filename: "-1".to_string(),
    }
}

fn item(id: u64, name: &str) -> Item {
    Item {
        id,
        from_expansion: false,
        reachable: true,
        exempt: false,
        included: false,
        silent: false,
        expectation: false,
        level: "warn".to_string(),
        source: LevelSource::Default,
        place: Some(("src/lib.rs".to_string(), id as u32, id as u32 + 2)),
        key: format!("demo::{name}"),
        krate: "demo".to_string(),
        path: name.to_string(),
        descr: "function".to_string(),
        parent: None,
    }
}

fn local(id: u64, reachable: bool, at: Option<u32>) -> Use {
    Use::Local {
        id,
        reachable,
        key: "demo::{impl#1}::run".to_string(),
        place: at.map(|lo| ("src/lib.rs".to_string(), lo, lo + 3)),
    }
}

fn alone() -> UnusedPub {
    let mut pass = UnusedPub::new();
    pass.check_crate(false, false, Mode::Alone, &Vec::new());
    pass
}

#[test]
fn the_items_that_are_checked() {
    for kind in [
        ItemKind::Fn,
        ItemKind::Struct,
        ItemKind::Enum,
        ItemKind::Union,
        ItemKind::Const,
        ItemKind::Static,
        ItemKind::TyAlias,
        ItemKind::Trait,
    ] {
        assert!(is_checked_item(kind));
    }
    assert!(!is_checked_item(ItemKind::Mod));
    assert!(!is_checked_item(ItemKind::Impl));
    assert!(is_checked_trait_item(ItemKind::AssocFn));
    assert!(is_checked_trait_item(ItemKind::AssocConst));
    assert!(!is_checked_trait_item(ItemKind::AssocTy));
    assert!(is_checked_impl_item(ItemKind::AssocFn, false));
    assert!(!is_checked_impl_item(ItemKind::AssocFn, true));
    assert!(!is_checked_impl_item(ItemKind::AssocTy, false));
}

#[test]
fn a_binarys_key_says_so() {
    assert_eq!(key("tool", false, "::fmt::raw"), "tool::fmt::raw");
    assert_eq!(key("tool", true, "::{impl#3}::eql"), "tool[bin]::{impl#3}::eql");
}

#[test]
fn a_place_is_relative_to_its_file() {
    assert_eq!(
        locate(Some("src/lib.rs"), 100, 107, 112),
        Some(("src/lib.rs".to_string(), 7, 12))
    );
    assert_eq!(locate(None, 100, 107, 112), None);
}

#[test]
fn a_constructor_and_a_variant_count_as_their_type() {
    assert_eq!(owning_item(&vec![ItemKind::Fn]), 0);
    assert_eq!(owning_item(&vec![ItemKind::Ctor, ItemKind::Struct]), 1);
    assert_eq!(owning_item(&vec![ItemKind::Variant, ItemKind::Enum]), 1);
    assert_eq!(owning_item(&vec![ItemKind::Ctor, ItemKind::Variant, ItemKind::Enum]), 2);
}

#[test]
fn an_associated_item_belongs_to_its_trait_or_type() {
    let parent = |kind, around| parent_key(kind, around, "demo::T", Some("demo::A"));
    assert_eq!(parent(ItemKind::AssocFn, ItemKind::Trait), Some("demo::T".to_string()));
    assert_eq!(parent(ItemKind::AssocConst, ItemKind::Impl), Some("demo::A".to_string()));
    assert_eq!(parent(ItemKind::AssocFn, ItemKind::Mod), None);
    assert_eq!(parent(ItemKind::Fn, ItemKind::Trait), None);
    assert_eq!(parent_key(ItemKind::AssocFn, ItemKind::Impl, "demo::T", None), None);
}

#[test]
fn the_impl_block_around_a_path() {
    assert!(matches!(enclosing_impl(ItemKind::Impl, ItemKind::Mod), Around::Owner));
    assert!(matches!(enclosing_impl(ItemKind::AssocFn, ItemKind::Impl), Around::Parent));
    assert!(matches!(enclosing_impl(ItemKind::AssocTy, ItemKind::Impl), Around::Parent));
    assert!(matches!(enclosing_impl(ItemKind::AssocFn, ItemKind::Trait), Around::Nothing));
    assert!(matches!(enclosing_impl(ItemKind::Fn, ItemKind::Impl), Around::Nothing));
}

#[test]
fn a_types_own_impl_and_derives_do_not_use_it() {
    assert!(path_is_use(false, false, false, false));
    assert!(!path_is_use(false, true, false, false));
    assert!(path_is_use(true, true, false, false));
    assert!(!path_is_use(false, false, true, true));
    assert!(path_is_use(false, false, true, false));
}

#[test]
fn an_item_in_an_included_file_is_told_by_the_module_around_it() {
    let module = |body, declared| Enclosing::Module { body, declared };
    assert!(!included(1, &vec![Enclosing::Crate { body: 1 }]));
    assert!(included(2, &vec![Enclosing::Crate { body: 1 }]));
    assert!(!included(2, &vec![module(2, 1), Enclosing::Crate { body: 1 }]));
    assert!(included(3, &vec![module(2, 1), Enclosing::Crate { body: 1 }]));
    assert!(included(2, &vec![module(2, 3), Enclosing::Crate { body: 1 }]));
    assert!(!included(1, &vec![Enclosing::Other]));
}

#[test]
fn what_is_reached_from_elsewhere_is_exempt() {
    assert!(exempt(ItemKind::Fn, true, false, false));
    assert!(exempt(ItemKind::Static, true, false, false));
    assert!(!exempt(ItemKind::Struct, true, false, false));
    assert!(exempt(ItemKind::Struct, false, true, false));
    assert!(exempt(ItemKind::Fn, false, false, true));
    assert!(!exempt(ItemKind::Fn, false, false, false));
}

#[test]
fn a_level_says_where_it_comes_from() {
    let messages = |level: &str, source: LevelSource| {
        level_source(level, &source).into_iter().map(|n| (n.help, n.message)).collect::<Vec<_>>()
    };
    assert_eq!(
        messages("warn", LevelSource::Default),
        vec![(false, "`#[warn(unused_pub)]` on by default".to_string())]
    );
    let flag = |value: &str| LevelSource::CommandLine {
        value: value.to_string(),
        flag: "-D".to_string(),
    };
    assert_eq!(
        messages("deny", flag("unused_pub")),
        vec![(false, "requested on the command line with `-D unused-pub`".to_string())]
    );
    assert_eq!(
        messages("deny", flag("mordant_unused")),
        vec![
            (false, "`-D unused-pub` implied by `-D mordant-unused`".to_string()),
            (true, "to override `-D mordant-unused` add `#[allow(unused_pub)]`".to_string()),
        ]
    );
    let node = |attr: &str| LevelSource::Node {
        attr: attr.to_string(),
        at: Some(("src/lib.rs".to_string(), 1, 2)),
    };
    let notes = level_source("deny", &node("unused_pub"));
    assert_eq!(notes.len(), 1);
    assert_eq!(notes[0].message, "the lint level is defined here");
    assert_eq!(notes[0].at, Some(("src/lib.rs".to_string(), 1, 2)));
    assert_eq!(
        messages("deny", node("warnings"))[1],
        (false, "`#[deny(unused_pub)]` implied by `#[deny(warnings)]`".to_string())
    );
}

#[test]
fn a_binary_has_a_section_of_its_own() {
    assert_eq!(section_name("demo", None), "demo");
    assert_eq!(section_name("demo", Some("demo")), "demo (bin demo)");
}

#[test]
fn a_build_script_is_counted_without_its_extra_file_name() {
    let built = |extra: &str| Unit { extra_filename: extra.to_string(), ..unit() };
    let facts = "/t/unused_pub";
    let script = counted_unit(built("-0a"), "build_script_build");
    assert_eq!(script.extra_filename, "");
    assert_eq!(script.src, "/w/src/lib.rs");
    assert_eq!(script.over(facts), built("").over(facts));
    assert_eq!(counted_unit(built("-0a"), "demo").over(facts), built("-0a").over(facts));
}

#[test]
fn a_compilation_records_in_a_run_only() {
    let facts = || Some("/t/unused_pub".to_string());
    assert!(matches!(mode(None, "demo", Some(unit())), Mode::Alone));
    assert!(matches!(mode(facts(), "demo", None), Mode::Alone));
    assert!(matches!(mode(facts(), "build_script_build", Some(unit())), Mode::Alone));
    match mode(facts(), "demo", Some(unit())) {
        Mode::Record { dir, unit } => {
            assert_eq!(dir, "/t/unused_pub");
            assert_eq!(unit.src, "/w/src/lib.rs");
        }
        Mode::Alone => panic!("the run records"),
    }
}

#[test]
fn items_that_cannot_be_reported_are_skipped() {
    let recorded = |change: &dyn Fn(&mut Item)| {
        let mut item = item(1, "run");
        change(&mut item);
        alone().record_def(&item)
    };
    assert!(matches!(recorded(&|_| {}), Recording::Recorded));
    assert!(matches!(recorded(&|i| i.from_expansion = true), Recording::Skipped));
    assert!(matches!(recorded(&|i| i.reachable = false), Recording::Skipped));
    assert!(matches!(recorded(&|i| i.exempt = true), Recording::Skipped));
    assert!(matches!(recorded(&|i| i.included = true), Recording::Skipped));
    assert!(matches!(recorded(&|i| i.silent = true), Recording::Skipped));
    assert!(matches!(recorded(&|i| i.place = None), Recording::Skipped));
    assert!(matches!(
        recorded(&|i| {
            i.silent = true;
            i.expectation = true;
        }),
        Recording::Expected
    ));
    let mut test = UnusedPub::new();
    test.check_crate(true, false, Mode::Alone, &Vec::new());
    assert!(matches!(test.record_def(&item(1, "run")), Recording::Skipped));
    assert!(matches!(test.check_crate_post("demo"), Post::Nothing));
}

#[test]
fn a_crate_alone_reports_what_it_does_not_use() {
    let mut pass = alone();
    pass.record_def(&item(1, "used"));
    pass.record_def(&item(2, "unused"));
    let mut member = item(3, "member");
    member.parent = Some("demo::unused".to_string());
    pass.record_def(&member);
    let mut other = item(4, "other");
    other.parent = Some("demo::used".to_string());
    pass.record_def(&other);
    pass.record_ref(&local(1, false, None));
    pass.record_ref(&Use::Own);
    match pass.check_crate_post("demo") {
        Post::Report(defs) => {
            let paths: Vec<&str> = defs.iter().map(|(_, d)| d.path.as_str()).collect();
            assert_eq!(paths, vec!["demo::unused", "demo::other"]);
            assert_eq!(defs[1].0, 4);
        }
        _ => panic!("a crate alone reports"),
    }
}

fn known() -> Vec<String> {
    let def = |key: &str| Def {
        key: key.to_string(),
        file: "x.rs".to_string(),
        lo: 0,
        hi: 1,
        descr: "function".to_string(),
        path: key.to_string(),
        parent: String::new(),
        level: "warn".to_string(),
        notes: Vec::new(),
    };
    vec![write_defs("a", &vec![def("a::one"), def("a::two")])]
}

#[test]
fn a_crate_in_a_run_records_its_items_and_uses() {
    let dir = "/t/unused_pub";
    let mut pass = UnusedPub::new();
    let mode = Mode::Record { dir: dir.to_string(), unit: unit() };
    pass.check_crate(false, false, mode, &known());
    assert!(pass.wants_key("a"));
    assert!(!pass.wants_key("std"));
    let mut prefixed = item(7, "run");
    prefixed.path = "demo::run".to_string();
    pass.record_def(&prefixed);
    let foreign = |krate: &str, key: &str| Use::Foreign {
        krate: krate.to_string(),
        key: key.to_string(),
    };
    pass.record_ref(&foreign("a", "a::two"));
    pass.record_ref(&foreign("a", "a::unknown"));
    pass.record_ref(&foreign("std", "std::mem::swap"));
    pass.record_ref(&local(7, true, Some(7)));
    pass.record_ref(&local(8, true, None));
    pass.record_ref(&local(9, false, Some(9)));
    match pass.check_crate_post("demo") {
        Post::Write { refs, defs } => {
            assert_eq!(refs.0, unit().refs(dir));
            assert_eq!(refs.1, "a::two\ndemo@src/lib.rs:7\n");
            let (path, text) = defs.unwrap();
            assert_eq!(path, unit().defs(dir));
            let defs = read_defs(&text).unwrap();
            assert_eq!(defs.section, "demo");
            assert_eq!(defs.defs.len(), 1);
            assert_eq!(defs.defs[0].path, "demo::run");
            assert_eq!(defs.defs[0].notes[0].message, "`#[warn(unused_pub)]` on by default");
        }
        _ => panic!("a run records"),
    }
}

#[test]
fn a_test_build_and_a_proc_macro_record_uses_only() {
    for (is_test, is_proc_macro) in [(true, false), (false, true)] {
        let mut pass = UnusedPub::new();
        let mode = Mode::Record { dir: "/t".to_string(), unit: unit() };
        pass.check_crate(is_test, is_proc_macro, mode, &known());
        pass.record_def(&item(7, "run"));
        pass.record_ref(&Use::Foreign { krate: "a".to_string(), key: "a::one".to_string() });
        match pass.check_crate_post("demo") {
            Post::Write { refs, defs } => {
                assert_eq!(refs.1, "a::one\n");
                assert!(defs.is_none());
            }
            _ => panic!("a run records"),
        }
    }
}
