use init_cleaner::extract::{
    accepted, import_pattern_list, normalize_match, prepare_import_list, statement_from,
    PatternRefused, FROM_IMPORT_PATTERN, LISTED_IMPORT_PATTERN, PLAIN_IMPORT_PATTERN,
};

fn owned(items: &[&str]) -> Vec<String> {
    items.iter().map(|s| s.to_string()).collect()
}

fn statements(text: &str) -> Vec<String> {
    prepare_import_list(text).unwrap()
}

#[test]
fn patterns_come_in_their_order() {
    assert_eq!(
        import_pattern_list(),
        vec![PLAIN_IMPORT_PATTERN, FROM_IMPORT_PATTERN, LISTED_IMPORT_PATTERN]
    );
}

#[test]
fn plain_imports_are_found_with_and_without_alias() {
    assert_eq!(statements("import os\n"), owned(&["import os"]));
    assert_eq!(statements("import pandas as pd\n"), owned(&["import pandas as pd"]));
    assert_eq!(statements("import torch.nn.functional\n"), owned(&["import torch.nn.functional"]));
    assert_eq!(statements("import a.b as c\nimport d\n"), owned(&["import a.b as c", "import d"]));
}

#[test]
fn from_imports_are_found_by_two_patterns() {
    assert_eq!(
        statements("from numpy import ndarray\n"),
        owned(&["import ndarray", "from numpy import ndarray"])
    );
    assert_eq!(
        statements("from a.b import c as d\n"),
        owned(&["import c as d", "from a.b import c as d"])
    );
}

#[test]
fn braced_lists_are_found_over_several_lines_and_collapsed() {
    let text = "from torch import {\n    nn,\n    functional as F,\n}\nx = 1\n";
    assert_eq!(statements(text), owned(&["from torch import { nn, functional as F, }"]));
}

#[test]
fn braced_list_ends_at_the_first_closing_brace() {
    let text = "from m import { a } b }\n";
    assert_eq!(statements(text), owned(&["from m import { a }"]));
}

#[test]
fn statements_come_pattern_by_pattern() {
    let text = "from m import { x }\nfrom n import y\nimport z\n";
    assert_eq!(
        statements(text),
        owned(&["import y", "import z", "from n import y", "from m import { x }"])
    );
}

#[test]
fn text_that_matches_no_pattern_gives_nothing() {
    assert_eq!(statements(""), Vec::<String>::new());
    assert_eq!(statements("x = 1\nprint(x)\n"), Vec::<String>::new());
    assert_eq!(statements("import Os\nfrom . import X\nIMPORT os\n"), Vec::<String>::new());
    assert_eq!(statements("from . import x\n"), owned(&["import x"]));
    assert_eq!(statements("from polars import DataFrame\n"), Vec::<String>::new());
}

#[test]
fn imports_inside_a_main_block_are_found_too() {
    let text = "if __name__ == \"__main__\":\n    import sys\n";
    assert_eq!(statements(text), owned(&["import sys"]));
}

#[test]
fn match_is_collapsed_and_trimmed() {
    assert_eq!(
        normalize_match("from a import {\n    b,\n\tc  as   d\n}"),
        Ok("from a import { b, c as d }".to_string())
    );
    assert_eq!(normalize_match("  import \t os  "), Ok("import os".to_string()));
    assert_eq!(normalize_match("import\u{a0}os"), Ok("import os".to_string()));
    assert_eq!(normalize_match(""), Ok(String::new()));
    assert_eq!(normalize_match(" \n "), Ok(String::new()));
}

#[test]
fn answer_of_the_engine_is_handed_on_and_a_refusal_is_reported() {
    assert_eq!(accepted(Ok(7u32)), Ok(7u32));
    assert_eq!(accepted(Ok(vec!["a".to_string()])), Ok(vec!["a".to_string()]));
    let refusal = regex::Regex::new("(").unwrap_err();
    assert_eq!(accepted::<u32>(Err(refusal)), Err(PatternRefused));
}

#[test]
fn statement_is_the_collapsed_text_trimmed() {
    assert_eq!(statement_from(Ok(" import os ".to_string())), Ok("import os".to_string()));
    assert_eq!(statement_from(Ok("from a import b".to_string())), Ok("from a import b".to_string()));
    assert_eq!(statement_from(Ok("  ".to_string())), Ok(String::new()));
    let refusal = regex::Regex::new("[a-").unwrap_err();
    assert_eq!(statement_from(Err(refusal)), Err(PatternRefused));
}

#[test]
fn every_match_becomes_a_statement() {
    for text in ["", "import os\n", "import a\nimport b as c\nfrom d import { e }\n"] {
        assert!(prepare_import_list(text).is_ok());
    }
    for found in ["", "import os", "from a import {\n b\n}"] {
        assert!(normalize_match(found).is_ok());
    }
}
