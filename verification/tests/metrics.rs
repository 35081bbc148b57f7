use crap4rust::cfg::{Cfg, CfgSet};
use crap4rust::lcov::parse_lcov;
use crap4rust::metrics::{
    apply_coverage, collect_items, extract_metrics, metric, slice_span, sort_by_position,
    FnSource, FunctionMetric, ImplMember, LineCoverage, SourceItem, TraitFn, TraitMember,
};

fn always() -> Cfg {
    Cfg::All(vec![])
}

fn no_options() -> CfgSet {
    CfgSet { names: vec![], pairs: vec![] }
}

fn func(ident: &str, start: usize, end: usize, complexity: usize) -> FnSource {
    FnSource { cfg: always(), ident: ident.to_string(), start_line: start, end_line: end, complexity }
}

fn names(metrics: &[FunctionMetric]) -> Vec<String> {
    metrics.iter().map(|m| m.name.clone()).collect()
}

#[test]
fn metric_lines_are_at_least_one_and_ordered() {
    let m = metric("f".to_string(), "a.rs", 0, 0, 3);
    assert_eq!((m.start_line, m.end_line), (1, 1));
    let m = metric("f".to_string(), "a.rs", 5, 2, 3);
    assert_eq!((m.start_line, m.end_line), (5, 5));
    let m = metric("f".to_string(), "a.rs", 4, 9, 2);
    assert_eq!((m.start_line, m.end_line, m.complexity), (4, 9, 2));
    assert!(m.line_coverage.is_none());
}

#[test]
fn slice_span_reads_trimmed_source_text() {
    let source = "struct Thing;\nimpl  Thing  { fn value(&self) {} }\n";
    let start = source.find("impl").unwrap() + 4;
    let end = source.find('{').unwrap();
    assert_eq!(slice_span(source, start, end), "Thing");
    assert_eq!(slice_span(source, end, start), "");
    assert_eq!(slice_span(source, 0, source.len() + 1), "");
    let accented = "é x";
    assert_eq!(slice_span(accented, 1, 3), "");
    assert_eq!(slice_span(accented, 0, 2), "é");
}

#[test]
fn names_free_and_impl_functions() {
    let source = "pub fn choose(a: bool, b: bool) -> Result<i32, ()> {\n if a && b { Ok(1) } else { Err(())? }\n}\nstruct Thing;\nimpl Thing { fn value(&self, x: i32) -> i32 { match x { 0 => 1, _ => 2 } } }\n";
    let ty = source.find("impl Thing").unwrap() + 5;
    let items = vec![
        SourceItem::Fn(func("choose", 1, 3, 4)),
        SourceItem::Other,
        SourceItem::Impl {
            cfg: always(),
            self_ty_start: ty,
            self_ty_end: ty + 5,
            members: vec![ImplMember::Fn(func("value", 5, 5, 3))],
        },
    ];
    let metrics = extract_metrics(&items, source, "/tmp/x/sample.rs", "/tmp/x", &no_options());
    assert_eq!(names(&metrics), vec!["choose".to_string(), "Thing::value".to_string()]);
    assert!(metrics.iter().all(|m| m.file == "sample.rs"));
    let carried: Vec<(usize, usize, usize)> =
        metrics.iter().map(|m| (m.start_line, m.end_line, m.complexity)).collect();
    assert_eq!(carried, vec![(1, 3, 4), (5, 5, 3)]);
}

#[test]
fn modules_traits_and_impls_are_named_as_written() {
    let source = "mod outer { mod inner { fn f() {} } impl Foo {} }";
    let ty = source.find("Foo").unwrap();
    let inner = SourceItem::Mod {
        cfg: always(),
        ident: "inner".to_string(),
        content: Some(vec![SourceItem::Fn(func("f", 1, 1, 1))]),
    };
    let items = vec![
        SourceItem::Mod {
            cfg: always(),
            ident: "outer".to_string(),
            content: Some(vec![
                inner,
                SourceItem::Impl {
                    cfg: always(),
                    self_ty_start: ty,
                    self_ty_end: ty + 3,
                    members: vec![ImplMember::Other, ImplMember::Fn(func("m", 2, 3, 1))],
                },
            ]),
        },
        SourceItem::Mod { cfg: always(), ident: "declared".to_string(), content: None },
        SourceItem::Trait {
            cfg: always(),
            ident: "Shape".to_string(),
            members: vec![
                TraitMember::Fn(TraitFn {
                    cfg: always(),
                    ident: "area".to_string(),
                    start_line: 4,
                    end_line: 4,
                    default_complexity: None,
                }),
                TraitMember::Fn(TraitFn {
                    cfg: always(),
                    ident: "sides".to_string(),
                    start_line: 5,
                    end_line: 6,
                    default_complexity: Some(2),
                }),
                TraitMember::Other,
            ],
        },
        SourceItem::Fn(func("top", 7, 8, 1)),
    ];
    let mut out = Vec::new();
    collect_items(&items, source, "lib.rs", "", &no_options(), &mut out);
    assert_eq!(
        names(&out),
        vec!["outer::inner::f", "Foo::m", "Shape::sides", "top"]
            .into_iter()
            .map(String::from)
            .collect::<Vec<_>>()
    );
    let mut prefixed = Vec::new();
    let top = vec![SourceItem::Fn(func("top", 7, 8, 1))];
    collect_items(&top, source, "lib.rs", "crate_mod", &no_options(), &mut prefixed);
    assert_eq!(names(&prefixed), vec!["crate_mod::top".to_string()]);
}

#[test]
fn sort_by_position_orders_by_line_then_name_and_is_stable() {
    let mut v = vec![
        metric("b".to_string(), "f.rs", 3, 4, 1),
        metric("a".to_string(), "f.rs", 3, 9, 1),
        metric("z".to_string(), "f.rs", 1, 2, 1),
        metric("a".to_string(), "g.rs", 3, 5, 1),
    ];
    sort_by_position(&mut v);
    let got: Vec<(String, String, usize)> =
        v.iter().map(|m| (m.name.clone(), m.file.clone(), m.end_line)).collect();
    assert_eq!(
        got,
        vec![
            ("z".to_string(), "f.rs".to_string(), 2),
            ("a".to_string(), "f.rs".to_string(), 9),
            ("a".to_string(), "g.rs".to_string(), 5),
            ("b".to_string(), "f.rs".to_string(), 4),
        ]
    );
}

#[test]
fn maps_lcov_to_function_executable_lines() {
    let source = "fn choose(x: bool) -> i32 {\n if x { 1 } else { 0 }\n}\n";
    let items = vec![SourceItem::Fn(func("choose", 1, 3, 2))];
    let mut metrics = extract_metrics(&items, source, "/d/sample.rs", "/d", &no_options());
    let report = "SF:/d/sample.rs\nDA:1,1\nDA:2,0\nDA:3,1\nend_of_record\n";
    let coverage = parse_lcov("/d/lcov.info", report).unwrap();
    apply_coverage("/d", &mut metrics, &coverage);
    assert_eq!(metrics.len(), 1);
    let c = metrics[0].line_coverage.unwrap();
    assert_eq!(c, LineCoverage { covered: 2, relevant: 3 });
    assert_eq!(Some(100.0 * c.covered as f64 / c.relevant as f64), Some(200.0 / 3.0));
}

#[test]
fn coverage_left_unset_without_lines_in_range() {
    let mut metrics = vec![
        metric("inside".to_string(), "a.rs", 2, 3, 1),
        metric("outside".to_string(), "a.rs", 10, 12, 1),
        metric("elsewhere".to_string(), "b.rs", 1, 5, 1),
    ];
    let coverage = parse_lcov("r", "SF:a.rs\nDA:2,0\nDA:3,0\nDA:4,1\n").unwrap();
    apply_coverage("/p", &mut metrics, &coverage);
    assert_eq!(metrics[0].line_coverage, Some(LineCoverage { covered: 0, relevant: 2 }));
    assert_eq!(metrics[1].line_coverage, None);
    assert_eq!(metrics[2].line_coverage, None);
    assert_eq!(metrics[0].name, "inside");
}

#[test]
fn inactive_items_are_not_reported() {
    let source = "pub fn always(x: bool) -> bool { x }\n#[cfg(feature = \"extra\")]\npub fn feature_only() {}\n#[cfg(test)]\nmod tests { fn t() {} }\n";
    let extra = Cfg::Pair("feature".to_string(), "extra".to_string());
    let items = vec![
        SourceItem::Fn(func("always", 1, 1, 1)),
        SourceItem::Fn(FnSource { cfg: extra, ..func("feature_only", 2, 3, 1) }),
        SourceItem::Mod {
            cfg: Cfg::Name("test".to_string()),
            ident: "tests".to_string(),
            content: Some(vec![SourceItem::Fn(func("t", 5, 5, 1))]),
        },
    ];
    let plain = extract_metrics(&items, source, "/c/src/lib.rs", "/c", &no_options());
    assert_eq!(names(&plain), vec!["always".to_string()]);
    let on = CfgSet {
        names: vec!["test".to_string()],
        pairs: vec![("feature".to_string(), "extra".to_string())],
    };
    let all = extract_metrics(&items, source, "/c/src/lib.rs", "/c", &on);
    assert_eq!(
        names(&all),
        vec!["always".to_string(), "feature_only".to_string(), "tests::t".to_string()]
    );
    assert!(all.iter().all(|m| m.file == "src/lib.rs"));
}
