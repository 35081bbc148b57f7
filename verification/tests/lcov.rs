use crap4rust::lcov::{coverage_lines, parse_lcov};
use crap4rust::Error;

fn counts(c: &crap4rust::Coverage, root: &str, file: &str) -> Option<Vec<(usize, u64)>> {
    coverage_lines(c, root, file).map(|m| {
        let mut v: Vec<(usize, u64)> = m.iter().map(|(l, n)| (*l, *n)).collect();
        v.sort();
        v
    })
}

#[test]
fn reads_line_counts_per_file() {
    let text = "TN:\nSF:/p/src/lib.rs\nDA:1,1\nDA:2,0\nDA:3,1\nend_of_record\n";
    let c = parse_lcov("lcov.info", text).unwrap();
    assert_eq!(counts(&c, "/p", "src/lib.rs"), Some(vec![(1, 1), (2, 0), (3, 1)]));
}

#[test]
fn last_record_for_a_line_wins_and_files_merge() {
    let text = "SF:a.rs\nDA:1,5\nSF:b.rs\nDA:1,7\nSF:a.rs\nDA:1,0\nDA:2,3\n";
    let c = parse_lcov("r", text).unwrap();
    assert_eq!(counts(&c, "/p", "a.rs"), Some(vec![(1, 0), (2, 3)]));
    assert_eq!(counts(&c, "/p", "b.rs"), Some(vec![(1, 7)]));
}

#[test]
fn records_before_any_file_and_bad_records_are_ignored() {
    let text = "DA:9,9\nSF:  .\\src\\x.rs \r\nDA:1,+4\r\nDA:2\nDA:x,1\nDA: 3,1\nDA:4,-1\nDA:5,1,extra\nDA:18446744073709551616,1\n";
    let c = parse_lcov("r", text).unwrap();
    assert_eq!(counts(&c, "", "src/x.rs"), Some(vec![(1, 4), (5, 1)]));
}

#[test]
fn report_without_line_data_is_an_error() {
    for text in ["", "TN:\nend_of_record\n", "SF:a.rs\nend_of_record\n", "DA:1,1\n"] {
        match parse_lcov("target/lcov.info", text) {
            Err(Error::Coverage(m)) => {
                assert_eq!(m, "target/lcov.info contains no executable line data")
            }
            other => panic!("unexpected {:?}", other.is_ok()),
        }
    }
}

#[test]
fn coverage_lines_prefers_exact_then_absolute_then_unique_suffix() {
    let text = "SF:/p/src/a.rs\nDA:1,1\nSF:src/a.rs\nDA:2,2\nSF:/q/lib/b.rs\nDA:3,3\nSF:/x/c.rs\nDA:4,4\nSF:/y/c.rs\nDA:5,5\n";
    let c = parse_lcov("r", text).unwrap();
    assert_eq!(counts(&c, "/p", "src/a.rs"), Some(vec![(2, 2)]));
    assert_eq!(counts(&c, "/p", "./src/a.rs"), Some(vec![(2, 2)]));
    assert_eq!(counts(&c, "/p", "/p/src/a.rs"), Some(vec![(1, 1)]));
    assert_eq!(counts(&c, "/q", "lib/b.rs"), Some(vec![(3, 3)]));
    assert_eq!(counts(&c, "/z", "b.rs"), Some(vec![(3, 3)]));
    assert_eq!(counts(&c, "/z", "c.rs"), None);
    assert_eq!(counts(&c, "/z", "d.rs"), None);
}
