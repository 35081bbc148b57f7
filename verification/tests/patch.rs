use crap4rust::patch::{insert_before, replace_between, replace_once};

#[test]
fn replace_once_swaps_the_only_anchor() {
    let mut text = String::from("version = \"2.0.1\"\nname = \"x\"\n");
    replace_once(&mut text, "version = \"2.0.1\"", "version = \"2.0.2\"", "package version");
    assert_eq!(text, "version = \"2.0.2\"\nname = \"x\"\n");
}

#[test]
fn replace_between_keeps_the_end_anchor() {
    let mut text = String::from("a\nfn start() {}\nold\nfn end() {}\nz");
    replace_between(&mut text, "fn start(", "fn end(", "new\n", "range");
    assert_eq!(text, "a\nnew\nfn end() {}\nz");
}

#[test]
fn insert_before_puts_text_ahead_of_marker() {
    let mut text = String::from("one\n    #[test]\n    fn t() {}\n");
    insert_before(&mut text, "    #[test]", "    // added\n", "tests");
    assert_eq!(text, "one\n    // added\n    #[test]\n    fn t() {}\n");
}

#[test]
fn anchors_are_counted_in_characters() {
    let mut text = String::from("ééé anchor ü");
    replace_once(&mut text, "anchor", "ü", "x");
    assert_eq!(text, "ééé ü ü");
}
