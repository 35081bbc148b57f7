use crap4rust::cfg::{cfg_active, Cfg, CfgSet};
use crap4rust::error::Error;
use crap4rust::parse::parse_source;
use crap4rust::scope::{crate_root, parse_cfg_lines, reached_file, reached_from, with_name, SourceRef};

fn lines(text: &str) -> Vec<String> {
    text.lines().map(String::from).collect()
}

fn linux() -> CfgSet {
    parse_cfg_lines(&lines("debug_assertions\nunix\ntarget_os=\"linux\"\nfeature=\"std\"\n"))
}

fn name(n: &str) -> Cfg {
    Cfg::Name(n.to_string())
}

fn pair(k: &str, v: &str) -> Cfg {
    Cfg::Pair(k.to_string(), v.to_string())
}

#[test]
fn cfg_lines_give_names_and_pairs() {
    let on = linux();
    assert_eq!(on.names, vec!["debug_assertions".to_string(), "unix".to_string()]);
    assert_eq!(
        on.pairs,
        vec![
            ("target_os".to_string(), "linux".to_string()),
            ("feature".to_string(), "std".to_string())
        ]
    );
    let on = with_name(on, "test");
    assert_eq!(on.names.last().unwrap(), "test");
}

#[test]
fn cfg_predicates_follow_the_options() {
    let on = linux();
    assert!(cfg_active(&name("unix"), &on));
    assert!(!cfg_active(&name("windows"), &on));
    assert!(cfg_active(&pair("target_os", "linux"), &on));
    assert!(!cfg_active(&pair("feature", "extra"), &on));
    assert!(cfg_active(&Cfg::Not(Box::new(name("test"))), &on));
    assert!(cfg_active(&Cfg::All(vec![]), &on));
    assert!(!cfg_active(&Cfg::Any(vec![]), &on));
    assert!(cfg_active(&Cfg::Any(vec![name("windows"), pair("feature", "std")]), &on));
    assert!(!cfg_active(&Cfg::All(vec![name("unix"), name("test")]), &on));
}

#[test]
fn modules_and_includes_lead_to_files() {
    let root = crate_root("/c/src/lib.rs");
    assert_eq!(root.child_dir, "/c/src");
    let refs = vec![
        SourceRef::Mod { cfgs: vec![], nest: vec![], ident: "a".to_string(), path: None },
        SourceRef::Mod { cfgs: vec![name("test")], nest: vec![], ident: "tests".to_string(), path: None },
        SourceRef::Mod {
            cfgs: vec![],
            nest: vec![],
            ident: "p".to_string(),
            path: Some("other/p_impl.rs".to_string()),
        },
        SourceRef::Include { cfgs: vec![], nest: vec![], path: "/abs/shared.rs".to_string() },
        SourceRef::Include { cfgs: vec![], nest: vec![], path: "gen.rs".to_string() },
        SourceRef::Mod {
            cfgs: vec![],
            nest: vec!["outer".to_string()],
            ident: "b".to_string(),
            path: None,
        },
    ];
    let got: Vec<(Vec<String>, String)> = reached_from(&root, &refs, &linux())
        .into_iter()
        .map(|r| (r.candidates, r.child_dir))
        .collect();
    let s = |v: &[&str]| v.iter().map(|x| x.to_string()).collect::<Vec<_>>();
    assert_eq!(
        got,
        vec![
            (s(&["/c/src/a.rs", "/c/src/a/mod.rs"]), "/c/src/a".to_string()),
            (s(&["/c/src/other/p_impl.rs"]), "/c/src/other".to_string()),
            (s(&["/abs/shared.rs"]), "/c/src".to_string()),
            (s(&["/c/src/gen.rs"]), "/c/src".to_string()),
            (s(&["/c/src/outer/b.rs", "/c/src/outer/b/mod.rs"]), "/c/src/outer/b".to_string()),
        ]
    );
    let a = reached_file("/c/src/a.rs", "/c/src/a");
    let inner = vec![SourceRef::Mod { cfgs: vec![], nest: vec![], ident: "x".to_string(), path: None }];
    let got = reached_from(&a, &inner, &linux());
    assert_eq!(got[0].candidates, s(&["/c/src/a/x.rs", "/c/src/a/x/mod.rs"]));
}

#[test]
fn sources_parse_or_name_their_path() {
    assert!(parse_source("/c/src/lib.rs", "pub fn f() -> u8 { 1 }\n").is_ok());
    match parse_source("/c/src/bad.rs", "fn (") {
        Err(Error::Parse { path, .. }) => assert_eq!(path, "/c/src/bad.rs"),
        _ => panic!("expected a parse error"),
    }
}
