use auto_wmake::descriptor::{get_dependencies, get_make_target, TargetResolution};
use auto_wmake::graph::{get_edges, UnitFiles};
use auto_wmake::paths::bootstrap_dirs;
use auto_wmake::plan::{schedule, BuildPlan};
use auto_wmake::schedule::get_zero_in_degree;
use auto_wmake::TargetKind;

fn unit(path: &str, files: Option<&str>, options: Option<&str>) -> UnitFiles {
    UnitFiles {
        path: path.to_string(),
        files: files.map(|s| s.to_string()),
        options: options.map(|s| s.to_string()),
    }
}

#[test]
fn lib_target_parses() {
    match get_make_target("LIB = $(LIBDIR)/libfoo\n") {
        TargetResolution::Found(kind, name) => {
            assert_eq!(kind, TargetKind::Library);
            assert_eq!(name, "foo");
        }
        _ => panic!("expected a library target"),
    }
}

#[test]
fn exe_target_parses() {
    match get_make_target("EXE = $(BINDIR)/bar\n") {
        TargetResolution::Found(kind, name) => {
            assert_eq!(kind, TargetKind::Executable);
            assert_eq!(name, "bar");
        }
        _ => panic!("expected an executable target"),
    }
}

#[test]
fn first_recognized_key_wins() {
    match get_make_target("SOURCES = a.c\nEXE = out/first\nLIB = out/libsecond\n") {
        TargetResolution::Found(kind, name) => {
            assert_eq!(kind, TargetKind::Executable);
            assert_eq!(name, "first");
        }
        _ => panic!("expected the first recognized key to win"),
    }
}

#[test]
fn missing_key_is_no_key() {
    assert!(matches!(
        get_make_target("SOURCES = a.c\n"),
        TargetResolution::NoRecognizedKey
    ));
}

#[test]
fn exe_libs_tokens() {
    let deps = get_dependencies("EXE_LIBS = -lfoo -lbar\n");
    assert_eq!(deps, vec!["foo".to_string(), "bar".to_string()]);
}

#[test]
fn lib_libs_tokens() {
    let deps = get_dependencies("LIB_LIBS = -lalpha\n");
    assert_eq!(deps, vec!["alpha".to_string()]);
}

#[test]
fn backslash_continuation_joins_lines() {
    let deps = get_dependencies("EXE_LIBS = -lfoo \\\n    -lbar\n");
    assert_eq!(deps, vec!["foo".to_string(), "bar".to_string()]);
}

#[test]
fn backslash_deletes_following_character() {
    // the deletion rule removes the backslash and the single character
    // after it, whatever it is: "fo\ao" becomes "foo"
    let deps = get_dependencies("EXE_LIBS = -lfo\\ao\n");
    assert_eq!(deps, vec!["foo".to_string()]);
}

#[test]
fn schedule_chain_dependency_first() {
    let edges = vec![
        ("A".to_string(), "B".to_string()),
        ("B".to_string(), "C".to_string()),
    ];
    let order = schedule(&edges).expect("acyclic chain must schedule");
    assert_eq!(
        order,
        vec!["C".to_string(), "B".to_string(), "A".to_string()]
    );
}

#[test]
fn schedule_diamond_with_duplicate_edge() {
    let edges = vec![
        ("A".to_string(), "B".to_string()),
        ("A".to_string(), "C".to_string()),
        ("B".to_string(), "D".to_string()),
        ("C".to_string(), "D".to_string()),
        ("B".to_string(), "D".to_string()),
    ];
    let order = schedule(&edges).expect("diamond with duplicate edges must not deadlock");
    assert_eq!(order.len(), 4);
    let pos = |n: &str| order.iter().position(|x| x == n).unwrap();
    assert!(pos("D") < pos("B"));
    assert!(pos("D") < pos("C"));
    assert!(pos("B") < pos("A"));
    assert!(pos("C") < pos("A"));
}

#[test]
fn schedule_cycle_reports_residual() {
    let edges = vec![
        ("A".to_string(), "B".to_string()),
        ("B".to_string(), "A".to_string()),
    ];
    let err = schedule(&edges).expect_err("a cycle cannot schedule");
    assert_eq!(err.scheduled, 0);
    assert_eq!(err.total, 2);
}

#[test]
fn stepwise_abort_leaves_rest_unbuilt() {
    let edges = vec![
        ("A".to_string(), "B".to_string()),
        ("B".to_string(), "C".to_string()),
    ];
    let mut plan = BuildPlan::from_edges(&edges);
    assert_eq!(plan.total(), 3);
    assert_eq!(plan.next_target(), Some("C".to_string()));
    plan.complete_current();
    // the next unit's external build fails here: the loop stops, nothing
    // after it is released
    assert_eq!(plan.next_target(), Some("B".to_string()));
    assert_eq!(plan.completed(), 1);
}

#[test]
fn zero_in_degree_collects_indices() {
    let degrees = vec![0usize, 2, 0, 1];
    assert_eq!(get_zero_in_degree(&degrees), vec![0usize, 2]);
}

#[test]
fn edges_of_three_unit_workspace() {
    let units = vec![
        unit("/src/a", Some("EXE = bin/app\n"), Some("EXE_LIBS = -lfoo\n")),
        unit("/src/b", Some("LIB = lib/libfoo\n"), Some("LIB_LIBS = -lbar\n")),
        unit("/src/c", Some("LIB = lib/libbar\n"), Some("")),
    ];
    let root = unit("/src/a", Some("EXE = bin/app\n"), Some("EXE_LIBS = -lfoo\n"));
    let edges = get_edges(&root, &units).expect("readable workspace");
    assert_eq!(
        edges,
        vec![
            ("/src/a".to_string(), "/src/b".to_string()),
            ("/src/b".to_string(), "/src/c".to_string()),
        ]
    );
    let order = schedule(&edges).expect("acyclic workspace");
    assert_eq!(
        order,
        vec![
            "/src/c".to_string(),
            "/src/b".to_string(),
            "/src/a".to_string(),
        ]
    );
}

#[test]
fn diamond_emits_each_edge_once() {
    let units = vec![
        unit("/src/a", Some("EXE = bin/a\n"), Some("EXE_LIBS = -lb -lc\n")),
        unit("/src/b", Some("LIB = lib/libb\n"), Some("LIB_LIBS = -ld\n")),
        unit("/src/c", Some("LIB = lib/libc\n"), Some("LIB_LIBS = -ld\n")),
        unit("/src/d", Some("LIB = lib/libd\n"), Some("")),
    ];
    let root = unit("/src/a", Some("EXE = bin/a\n"), Some("EXE_LIBS = -lb -lc\n"));
    let edges = get_edges(&root, &units).expect("readable workspace");
    assert_eq!(
        edges,
        vec![
            ("/src/a".to_string(), "/src/b".to_string()),
            ("/src/a".to_string(), "/src/c".to_string()),
            ("/src/b".to_string(), "/src/d".to_string()),
            ("/src/c".to_string(), "/src/d".to_string()),
        ]
    );
    let order = schedule(&edges).expect("a diamond must not deadlock");
    assert_eq!(order.len(), 4);
}

#[test]
fn repeated_name_accumulates_duplicate_edges() {
    let units = vec![
        unit("/src/a", Some("EXE = bin/a\n"), Some("EXE_LIBS = -lfoo -lfoo\n")),
        unit("/src/b", Some("LIB = lib/libfoo\n"), Some("")),
    ];
    let root = unit("/src/a", Some("EXE = bin/a\n"), Some("EXE_LIBS = -lfoo -lfoo\n"));
    let edges = get_edges(&root, &units).expect("readable workspace");
    assert_eq!(
        edges,
        vec![
            ("/src/a".to_string(), "/src/b".to_string()),
            ("/src/a".to_string(), "/src/b".to_string()),
        ]
    );
    let order = schedule(&edges).expect("duplicate edges must not deadlock");
    assert_eq!(order, vec!["/src/b".to_string(), "/src/a".to_string()]);
}

#[test]
fn target_value_with_trailing_dot_segment() {
    match get_make_target("LIB = $(X)/libfoo/.\n") {
        TargetResolution::Found(kind, name) => {
            assert_eq!(kind, TargetKind::Library);
            assert_eq!(name, "foo");
        }
        _ => panic!("a trailing dot segment must be ignored"),
    }
}

#[test]
fn kind_labels() {
    assert_eq!(TargetKind::Library.label(), "LIB");
    assert_eq!(TargetKind::Executable.label(), "EXE");
}

#[test]
fn edge_construction_is_repeatable() {
    let units = vec![
        unit("/src/a", Some("EXE = bin/app\n"), Some("EXE_LIBS = -lfoo\n")),
        unit("/src/b", Some("LIB = lib/libfoo\n"), Some("")),
    ];
    let root = unit("/src/a", Some("EXE = bin/app\n"), Some("EXE_LIBS = -lfoo\n"));
    let first = get_edges(&root, &units).expect("readable workspace");
    let second = get_edges(&root, &units).expect("readable workspace");
    assert_eq!(first, second);
}

#[test]
fn unreadable_options_is_hard_failure() {
    let units = vec![
        unit("/src/a", Some("EXE = bin/app\n"), Some("EXE_LIBS = -lfoo\n")),
        unit("/src/b", Some("LIB = lib/libfoo\n"), None),
    ];
    let root = unit("/src/a", Some("EXE = bin/app\n"), Some("EXE_LIBS = -lfoo\n"));
    let err = get_edges(&root, &units).expect_err("missing options must fail");
    assert_eq!(err, "/src/b");
}

#[test]
fn external_library_names_are_skipped() {
    let units = vec![unit(
        "/src/a",
        Some("EXE = bin/app\n"),
        Some("EXE_LIBS = -lsystem\n"),
    )];
    let root = unit("/src/a", Some("EXE = bin/app\n"), Some("EXE_LIBS = -lsystem\n"));
    let edges = get_edges(&root, &units).expect("readable workspace");
    assert!(edges.is_empty());
}

#[test]
fn bootstrap_directories() {
    let dirs = bootstrap_dirs("/proj", "/proj/src", &None);
    assert_eq!(
        dirs,
        vec![
            "/proj/wmake/src".to_string(),
            "/proj/src/Pstream".to_string(),
            "/proj/src/OSspecific/POSIX".to_string(),
        ]
    );
    let dirs = bootstrap_dirs("/proj", "/proj/src", &Some("linux64".to_string()));
    assert_eq!(dirs[2], "/proj/src/OSspecific/linux64".to_string());
}

#[test]
fn marker_scan_stops_at_first_make() {
    let names = vec![
        "Alpha".to_string(),
        "Make".to_string(),
        "Zeta".to_string(),
        "Make".to_string(),
    ];
    assert_eq!(auto_wmake::paths::find_marker(&names), 1);
    let no_marker = vec!["alpha".to_string(), "beta".to_string()];
    assert_eq!(auto_wmake::paths::find_marker(&no_marker), 2);
    let none: Vec<String> = Vec::new();
    assert_eq!(auto_wmake::paths::find_marker(&none), 0);
}

#[test]
fn path_relativization() {
    let p: Vec<char> = "/proj/src/unit".chars().collect();
    let base: Vec<char> = "/proj".chars().collect();
    let rel = auto_wmake::paths::vec_relative_to(&p, &base).expect("path lies under base");
    assert_eq!(rel.iter().collect::<String>(), "src/unit");
    let other: Vec<char> = "/elsewhere/x".chars().collect();
    assert!(auto_wmake::paths::vec_relative_to(&other, &base).is_none());
    let same: Vec<char> = "/proj".chars().collect();
    let rel = auto_wmake::paths::vec_relative_to(&same, &base).expect("equal paths");
    assert!(rel.is_empty());
}
