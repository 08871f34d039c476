use feature_lint::autofix::AutoFixer;

const MANIFEST: &str = "# top comment\n\
[package]\n\
name = \"demo\"   # trailing comment\n\
\n\
[features]\n\
# these lists use custom indentation\n\
default = [ \"std\" ]\n\
std = [\n\
\t\"serde/std\",   # keep me\n\
\t\"alloc\",\n\
]\n\
alloc = []\n\
\n\
[dependencies]\n\
serde = \"1\"\n";

#[test]
fn appends_into_empty_list() {
    let mut doc = AutoFixer::from_text("[features]\nstd = []\n".to_owned());
    doc.add_to_feature(&"std".to_owned(), &"b/std".to_owned()).unwrap();
    assert_eq!(doc.text(), "[features]\nstd = [\"b/std\"]\n");
}

#[test]
fn appends_after_last_element() {
    let mut doc = AutoFixer::from_text("[features]\nstd = [\"a\"]\n".to_owned());
    doc.add_to_feature(&"std".to_owned(), &"b/std".to_owned()).unwrap();
    assert_eq!(doc.text(), "[features]\nstd = [\"a\", \"b/std\"]\n");
}

#[test]
fn respects_trailing_comma() {
    let mut doc = AutoFixer::from_text("[features]\nstd = [\n    \"a\",\n]\n".to_owned());
    doc.add_to_feature(&"std".to_owned(), &"b/std".to_owned()).unwrap();
    assert_eq!(doc.text(), "[features]\nstd = [\n    \"a\", \"b/std\"\n]\n");
}

#[test]
fn edit_is_idempotent() {
    // Adding the same value twice does not duplicate it.
    let mut doc = AutoFixer::from_text("[features]\nstd = []\n".to_owned());
    doc.add_to_feature(&"std".to_owned(), &"b/std".to_owned()).unwrap();
    let once = doc.text().clone();
    doc.add_to_feature(&"std".to_owned(), &"b/std".to_owned()).unwrap();
    assert_eq!(doc.text(), &once);
    assert_eq!(once.matches("b/std").count(), 1);
}

#[test]
fn present_value_is_not_added_again() {
    let mut doc = AutoFixer::from_text("[features]\nstd = [\"b/std\"]\n".to_owned());
    doc.add_to_feature(&"std".to_owned(), &"b/std".to_owned()).unwrap();
    assert_eq!(doc.text(), "[features]\nstd = [\"b/std\"]\n");
}

#[test]
fn round_trip_preserves_every_other_byte() {
    // Comments, blank lines and custom indentation survive the edit; only
    // the targeted list changes.
    let mut doc = AutoFixer::from_text(MANIFEST.to_owned());
    doc.add_to_feature(&"std".to_owned(), &"b/std".to_owned()).unwrap();
    let expected = MANIFEST.replace("\t\"alloc\",\n", "\t\"alloc\", \"b/std\"\n");
    assert_eq!(doc.text(), &expected);
    // A second value lands in the same list, after the first.
    doc.add_to_feature(&"std".to_owned(), &"c/std".to_owned()).unwrap();
    let expected2 = expected.replace("\"b/std\"\n", "\"b/std\", \"c/std\"\n");
    assert_eq!(doc.text(), &expected2);
}

#[test]
fn untargeted_lists_are_untouched() {
    let mut doc = AutoFixer::from_text(MANIFEST.to_owned());
    doc.add_to_feature(&"alloc".to_owned(), &"x/alloc".to_owned()).unwrap();
    let expected = MANIFEST.replace("alloc = []", "alloc = [\"x/alloc\"]");
    assert_eq!(doc.text(), &expected);
}

#[test]
fn missing_feature_table_fails_without_changes() {
    let mut doc = AutoFixer::from_text("[package]\nname = \"demo\"\n".to_owned());
    assert!(doc.add_to_feature(&"std".to_owned(), &"b/std".to_owned()).is_err());
    assert_eq!(doc.text(), "[package]\nname = \"demo\"\n");
}

#[test]
fn missing_feature_entry_fails_without_changes() {
    let mut doc = AutoFixer::from_text("[features]\nalloc = []\n".to_owned());
    assert!(doc.add_to_feature(&"std".to_owned(), &"b/std".to_owned()).is_err());
    assert_eq!(doc.text(), "[features]\nalloc = []\n");
}

#[test]
fn entry_search_stops_at_next_table() {
    // `std` under [dependencies] is not a feature entry.
    let mut doc =
        AutoFixer::from_text("[features]\nalloc = []\n[dependencies]\nstd = []\n".to_owned());
    assert!(doc.add_to_feature(&"std".to_owned(), &"b/std".to_owned()).is_err());
}

#[test]
fn comment_with_bracket_inside_list_is_skipped() {
    let text = "[features]\nstd = [\n  # not the end: ]\n  \"a\",\n]\n";
    let mut doc = AutoFixer::from_text(text.to_owned());
    doc.add_to_feature(&"std".to_owned(), &"b/std".to_owned()).unwrap();
    assert_eq!(doc.text(), "[features]\nstd = [\n  # not the end: ]\n  \"a\", \"b/std\"\n]\n");
}

#[test]
fn non_list_entry_fails_without_changes() {
    // The entry's value is not an array; the next table's bracket must not
    // be mistaken for the list.
    let text = "[features]\nstd = \"x\"\n\n[dependencies]\nserde = { version = \"1\" }\n";
    let mut doc = AutoFixer::from_text(text.to_owned());
    assert!(doc.add_to_feature(&"std".to_owned(), &"b/std".to_owned()).is_err());
    assert_eq!(doc.text(), text);
}

#[test]
fn edit_is_idempotent_on_formatted_manifest() {
    let mut doc = AutoFixer::from_text(MANIFEST.to_owned());
    doc.add_to_feature(&"std".to_owned(), &"b/std".to_owned()).unwrap();
    let once = doc.text().clone();
    doc.add_to_feature(&"std".to_owned(), &"b/std".to_owned()).unwrap();
    assert_eq!(doc.text(), &once);
    assert_eq!(once.matches("b/std").count(), 1);
}
