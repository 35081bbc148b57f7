use crap4rust::path::{
    generated_roots, has_rs_extension_exec, is_ignored_name, is_safe_generated, is_test_path,
    join_path, normalize_path, relative_path, resolve, starts_with_path,
};
use crap4rust::sources::{keeps_source_file, select_source_files};

fn strings(items: &[&str]) -> Vec<String> {
    items.iter().map(|s| s.to_string()).collect()
}

#[test]
fn normalize_path_turns_backslashes_and_drops_leading_dot_slashes() {
    assert_eq!(normalize_path(".\\src\\lib.rs"), "src/lib.rs");
    assert_eq!(normalize_path("././a/./b.rs"), "a/./b.rs");
    assert_eq!(normalize_path("/abs/x.rs"), "/abs/x.rs");
    assert_eq!(normalize_path("."), ".");
    assert_eq!(normalize_path(""), "");
}

#[test]
fn normalize_path_is_idempotent_on_examples() {
    for s in [".\\./a\\b", "./.\\x", "a/b", "././", "..\\c"] {
        let once = normalize_path(s);
        assert_eq!(normalize_path(&once), once);
        assert!(!once.contains('\\'));
        assert!(!once.starts_with("./"));
    }
}

#[test]
fn join_path_follows_path_buf_push() {
    assert_eq!(join_path("/root", "src/a.rs"), "/root/src/a.rs");
    assert_eq!(join_path("/root/", "src/a.rs"), "/root/src/a.rs");
    assert_eq!(join_path("/root", "/abs/a.rs"), "/abs/a.rs");
    assert_eq!(join_path("", "a.rs"), "a.rs");
    assert_eq!(join_path("/root", ""), "/root/");
}

#[test]
fn resolve_keeps_absolute_paths() {
    assert_eq!(resolve("/p", "/tmp/lcov.info"), "/tmp/lcov.info");
    assert_eq!(resolve("/p", "target/coverage/lcov.info"), "/p/target/coverage/lcov.info");
}

#[test]
fn test_paths_are_recognised_below_the_root() {
    assert!(is_test_path("/p/tests/a.rs", "/p"));
    assert!(is_test_path("/p/src/tests/deep/a.rs", "/p"));
    assert!(is_test_path("/p/src/parse_test.rs", "/p"));
    assert!(!is_test_path("/p/src/lib.rs", "/p"));
    assert!(!is_test_path("/p/src/testsuite.rs", "/p"));
    assert!(!is_test_path("/q/tests/a.rs", "/p"));
    assert!(!is_test_path("/tests/x/src/a.rs", "/tests/x"));
}

#[test]
fn relative_path_strips_the_root_by_components() {
    assert_eq!(relative_path("/p/src/a.rs", "/p"), "src/a.rs");
    assert_eq!(relative_path("/p/src/a.rs", "/p/"), "src/a.rs");
    assert_eq!(relative_path("/pp/src/a.rs", "/p"), "/pp/src/a.rs");
    assert_eq!(relative_path("/p", "/p"), "");
    assert_eq!(relative_path("src/a.rs", ""), "src/a.rs");
}

#[test]
fn relative_path_keeps_the_rest_of_the_text() {
    assert_eq!(relative_path("/r/src/./a.rs", "/r"), "src/./a.rs");
    assert_eq!(relative_path("/r/src//a.rs", "/r"), "src//a.rs");
    assert_eq!(relative_path("/r/./src/a.rs/", "/r"), "src/a.rs");
    assert_eq!(relative_path("/r//./src/a.rs", "/r/"), "src/a.rs");
    assert_eq!(relative_path("/r/a/.", "/r"), "a");
    assert_eq!(relative_path("./a", "."), "a");
    assert_eq!(relative_path("a/b/", ""), "a/b");
    assert_eq!(relative_path("./", ""), ".");
    assert_eq!(relative_path("/", ""), "/");
}

#[test]
fn joined_path_seen_from_its_root_is_the_relative_path() {
    for (root, rel) in [("/p", "src/a.rs"), ("/p/", "src/x/b.rs"), ("w", "../c.rs"), (".", "a")] {
        let full = join_path(root, rel);
        assert!(starts_with_path(&full, root));
        assert_eq!(relative_path(&full, root), rel);
    }
}

#[test]
fn joined_path_is_test_code_by_its_pieces() {
    assert!(is_test_path(&join_path("/p", "tests/a.rs"), "/p"));
    assert!(is_test_path(&join_path("/p", "src/tests/x/b.rs"), "/p"));
    assert!(is_test_path(&join_path("/p/", "src/io_test.rs"), "/p/"));
    assert!(!is_test_path(&join_path("/p", "src/lib.rs"), "/p"));
    assert!(!is_test_path(&join_path("/tests", "src/lib.rs"), "/tests"));
}

#[test]
fn starts_with_path_compares_components() {
    assert!(starts_with_path("/p/target/x", "/p/target"));
    assert!(starts_with_path("/p/target", "/p/target/"));
    assert!(!starts_with_path("/p/targetx/y", "/p/target"));
    assert!(starts_with_path("/p//target/./x", "/p/target"));
}

#[test]
fn rust_extension_needs_a_stem() {
    assert!(has_rs_extension_exec("/p/src/a.rs"));
    assert!(has_rs_extension_exec("/p/src/a.b.rs"));
    assert!(!has_rs_extension_exec("/p/src/.rs"));
    assert!(!has_rs_extension_exec("/p/src/a.rs/.."));
    assert!(!has_rs_extension_exec("/p/src/a.rsx"));
}

#[test]
fn ignored_directory_names() {
    for name in [".git", "target", "vendor", "node_modules", ".venv", "venv", "build", "dist"] {
        assert!(is_ignored_name(name));
    }
    assert!(!is_ignored_name("src"));
    assert!(!is_ignored_name("targets"));
}

#[test]
fn keeps_source_file_applies_tests_and_filters() {
    let none: Vec<String> = Vec::new();
    assert!(keeps_source_file("/p/src/a.rs", "/p", false, &none));
    assert!(!keeps_source_file("/p/tests/a.rs", "/p", false, &none));
    assert!(keeps_source_file("/p/tests/a.rs", "/p", true, &none));
    assert!(!keeps_source_file("/p/src/a.txt", "/p", true, &none));
    let filters = strings(&["parser", "lexer"]);
    assert!(keeps_source_file("/p/src/parser/mod.rs", "/p", false, &filters));
    assert!(!keeps_source_file("/p/src/main.rs", "/p", false, &filters));
}

#[test]
fn selection_laws_on_examples() {
    let found = strings(&["/p/src/b.rs", "/p/tests/t.rs", "/p/src/a_test.rs", "/p/lib/x.rs", "/p/src/a.rs"]);
    let root = "/p";
    let all = select_source_files(&found, root, true, &vec![]);
    let no_tests = select_source_files(&found, root, false, &vec![]);
    assert!(no_tests.iter().all(|f| all.contains(f)));
    assert_eq!(no_tests, strings(&["/p/lib/x.rs", "/p/src/a.rs", "/p/src/b.rs"]));
    let f1 = strings(&["lib/"]);
    let f2 = strings(&["b.rs"]);
    let one = select_source_files(&found, root, true, &f1);
    let two = select_source_files(&found, root, true, &f2);
    assert!(one.iter().all(|f| all.contains(f)));
    let both = select_source_files(&found, root, true, &[f1.clone(), f2.clone()].concat());
    assert_eq!(both, strings(&["/p/lib/x.rs", "/p/src/b.rs"]));
    assert!(both.iter().all(|f| one.contains(f) || two.contains(f)));
    assert!(one.iter().chain(two.iter()).all(|f| both.contains(f)));
}

#[test]
fn selected_sources_come_in_path_order() {
    let found = strings(&[
        "/p/src/z.rs",
        "/p/src/a-b.rs",
        "/p/src/a/b.rs",
        "/p/tests/t.rs",
        "/p/README.md",
        "/p/src/x_test.rs",
    ]);
    let none: Vec<String> = Vec::new();
    let out = select_source_files(&found, "/p", false, &none);
    assert_eq!(out, strings(&["/p/src/a/b.rs", "/p/src/a-b.rs", "/p/src/z.rs"]));
    let with_tests = select_source_files(&found, "/p", true, &none);
    assert_eq!(
        with_tests,
        strings(&["/p/src/a/b.rs", "/p/src/a-b.rs", "/p/src/x_test.rs", "/p/src/z.rs", "/p/tests/t.rs"])
    );
}

#[test]
fn file_under_resolved_target_is_safe_to_remove() {
    let roots = generated_roots("/p");
    assert_eq!(roots, strings(&["/p/target", "/p/coverage", "/p/.coverage"]));
    let resolved: Vec<Option<String>> = vec![Some("/p/target".to_string()), None, None];
    assert!(is_safe_generated(&Some("/p/target/coverage/lcov.info".to_string()), &resolved));
}

#[test]
fn resolved_traversal_out_of_target_is_not_safe() {
    // `target/../Cargo.toml` resolves to the project's own manifest.
    let resolved: Vec<Option<String>> = vec![Some("/p/target".to_string()), None, None];
    assert!(!is_safe_generated(&Some("/p/Cargo.toml".to_string()), &resolved));
}

#[test]
fn resolved_link_outside_project_is_not_safe() {
    // A link inside `target` resolves to its target outside the project.
    let resolved: Vec<Option<String>> = vec![Some("/p/target".to_string()), None, None];
    assert!(!is_safe_generated(&Some("/elsewhere/outside.info".to_string()), &resolved));
    assert!(!is_safe_generated(&None, &resolved));
    assert!(!is_safe_generated(&Some("/p/targetx/a".to_string()), &resolved));
}
