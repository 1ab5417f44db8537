use init_cleaner::export::{export_lines, render_export_block, sorted_names, AllExports};
use init_cleaner::resolve::PyImports;

fn owned(items: &[&str]) -> Vec<String> {
    items.iter().map(|s| s.to_string()).collect()
}

#[test]
fn export_block_lists_names_sorted_and_once() {
    let exports = AllExports::new(owned(&["pd", "F", "nn", "pd", "data", "F"]));
    assert_eq!(
        exports.into_string(),
        "__all__ = [\n    \"F\",\n    \"data\",\n    \"nn\",\n    \"pd\",\n]\n"
    );
}

#[test]
fn empty_export_list_renders_an_empty_bracket_pair() {
    assert_eq!(AllExports::new(Vec::new()).into_string(), "__all__ = [\n]\n");
}

#[test]
fn export_list_of_one_name() {
    assert_eq!(AllExports::new(owned(&["x"])).into_string(), "__all__ = [\n    \"x\",\n]\n");
}

#[test]
fn new_keeps_the_names_as_given() {
    let exports = AllExports::new(owned(&["b", "a", "b"]));
    assert_eq!(exports.exports, owned(&["b", "a", "b"]));
}

#[test]
fn from_imports_exports_every_bound_name() {
    let imports = PyImports { attributes: owned(&["pd", "nn", "pd"]) };
    let exports = AllExports::from_imports(imports);
    assert_eq!(exports.exports, owned(&["pd", "nn", "pd"]));
    assert_eq!(exports.into_string(), "__all__ = [\n    \"nn\",\n    \"pd\",\n]\n");
}

#[test]
fn sorted_names_orders_by_code_point() {
    let names = owned(&["b", "a", "B", "_x", "ab", "a", "", "Z", "aa", "é", "z", "10", "9"]);
    let mut expected = names.clone();
    expected.sort();
    expected.dedup();
    assert_eq!(sorted_names(names), expected);
    assert_eq!(
        expected,
        owned(&["", "10", "9", "B", "Z", "_x", "a", "aa", "ab", "b", "z", "é"])
    );
}

#[test]
fn sorted_names_agrees_with_the_order_of_strings_beyond_ascii() {
    let names = owned(&[
        "\u{10000}",
        "\u{ffff}",
        "\u{e000}",
        "\u{d7ff}",
        "\u{800}",
        "\u{7ff}",
        "\u{80}",
        "\u{7f}",
        "a\u{10000}",
        "a\u{ffff}",
        "a",
    ]);
    let mut expected = names.clone();
    expected.sort();
    expected.dedup();
    assert_eq!(sorted_names(names), expected);
}

#[test]
fn sorted_names_does_not_depend_on_the_order_given() {
    let one = sorted_names(owned(&["c", "a", "b", "a"]));
    let other = sorted_names(owned(&["a", "b", "b", "c", "c"]));
    assert_eq!(one, other);
    assert_eq!(one, owned(&["a", "b", "c"]));
}

#[test]
fn sorting_sorted_names_changes_nothing() {
    let once = sorted_names(owned(&["q", "b", "q", "a"]));
    assert_eq!(sorted_names(once.clone()), once);
}

#[test]
fn render_lists_names_as_they_stand() {
    let names = owned(&["b", "a", "b"]);
    assert_eq!(
        render_export_block(&names),
        "__all__ = [\n    \"b\",\n    \"a\",\n    \"b\",\n]\n"
    );
    assert_eq!(
        export_lines(&names),
        owned(&["__all__ = [", "    \"b\",", "    \"a\",", "    \"b\",", "]"])
    );
}
