use crap4rust::sample::{always, choose_branch, feature_only};

#[test]
fn covers_both_choose_outcomes() {
    assert_eq!(choose_branch(true, true), 1);
    assert_eq!(choose_branch(false, true), 0);
}

#[test]
fn always_returns_input() {
    assert!(always(true));
    assert!(!always(false));
}

#[test]
fn feature_only_covers_both_outcomes() {
    assert!(feature_only(true, true));
    assert!(!feature_only(true, false));
}
