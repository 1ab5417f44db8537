use init_cleaner::clean::{
    clean_source, clean_with_statements, is_target_file_name, CleanError,
};
use init_cleaner::resolve::{MalformedImport, PyImports};

fn owned(items: &[&str]) -> Vec<String> {
    items.iter().map(|s| s.to_string()).collect()
}

#[test]
fn test_pyimports() {
    let lines = vec![
        "import datetime".to_string(),
        "import pandas as pd".to_string(),
        "import torch.nn".to_string(),
        "import torch.functional.nn as nn".to_string(),
        "import torch.functional.nn".to_string(),
        "from numpy impprt ndarray".to_string(),
        "from polars import DataFrame, Series, String, Int8".to_string(),
    ];
    let pyimports = PyImports::from_list_of_strings(lines).unwrap();
    assert_eq!(
        pyimports.attributes,
        vec![
            "datetime",
            "pd",
            "nn",
            "nn",
            "nn",
            "ndarray",
            "DataFrame",
            "Series",
            "String",
            "Int8"
        ]
    );
}

#[test]
fn test_clean_file() {
    let content = r#"
import pandas as pd
import torch.data
from torch import {
    nn,
    functional as F,
}
# Create a Series
series = pd.Series([1, 2, 3], name="a")

def test_cli(df, series) -> None:
    """Test the CLI commands."""
    df_cli = pd.DataFrameCLI(df)
    assert df_cli == df

    series_cli = pd.SeriesCLI(series)
    assert series_cli == series

# Path: tests/sub-module/test_cli.py
if __name__ == "__main__":
    test_cli()
    print("Hello")

    # Path: tests/sub-module/__init__.py
    a = 1
    b = 2

# Other stuff
import polars as pl
import pandas as pd

# Create a DataFrame
df = pl.DataFrame({
    "a": [1, 2, 3],
    "b": [4, 5, 6],
})

__all__ = ["pd", "F"]
"#;
    let written = format!("{}\n", content);
    let modified_content = clean_source(&written).unwrap();
    let expected_content = r#"
import pandas as pd
import torch.data
from torch import {
    nn,
    functional as F,
}
# Create a Series
series = pd.Series([1, 2, 3], name="a")

def test_cli(df, series) -> None:
    """Test the CLI commands."""
    df_cli = pd.DataFrameCLI(df)
    assert df_cli == df

    series_cli = pd.SeriesCLI(series)
    assert series_cli == series

# Path: tests/sub-module/test_cli.py
# Other stuff
import polars as pl
import pandas as pd

# Create a DataFrame
df = pl.DataFrame({
    "a": [1, 2, 3],
    "b": [4, 5, 6],
})

__all__ = [
    "F",
    "data",
    "nn",
    "pd",
    "pl",
]

"#;
    assert_eq!(modified_content, expected_content);
}

#[test]
fn old_export_list_is_replaced_by_the_names_of_the_imports() {
    let text = "__all__ = [\n    \"old\",\n    \"names\",\n]\nimport polars as pl\nimport pandas as pd\n";
    assert_eq!(
        clean_source(text),
        Ok("]\nimport polars as pl\nimport pandas as pd\n__all__ = [\n    \"pd\",\n    \"pl\",\n]\n\n"
            .to_string())
    );
    let text = "import polars as pl\nimport pandas as pd\n__all__ = [\"x\", \"pl\"]\n";
    assert_eq!(
        clean_source(text),
        Ok("import polars as pl\nimport pandas as pd\n__all__ = [\n    \"pd\",\n    \"pl\",\n]\n\n"
            .to_string())
    );
}

#[test]
fn text_without_imports_gets_an_empty_export_list() {
    assert_eq!(clean_source("x = 1\n"), Ok("x = 1\n__all__ = [\n]\n\n".to_string()));
    assert_eq!(clean_source(""), Ok("__all__ = [\n]\n\n".to_string()));
}

#[test]
fn last_line_without_line_feed_gets_one() {
    assert_eq!(clean_source("x = 1"), Ok("x = 1\n__all__ = [\n]\n\n".to_string()));
}

#[test]
fn imports_of_a_removed_main_block_are_still_exported() {
    let text = "import os\nif __name__ == '__main__':\n    import sys\n    sys.exit(0)\n";
    assert_eq!(
        clean_source(text),
        Ok("import os\n__all__ = [\n    \"os\",\n    \"sys\",\n]\n\n".to_string())
    );
}

#[test]
fn cleaned_text_holds_no_main_guard_line() {
    let text = "a\nif __name__ == \"__main__\":\n    b\nif __name__ == '__main__':\n\tc\n  if __name__ == '__main__':\nd\n";
    let cleaned = clean_source(text).unwrap();
    assert_eq!(cleaned, "a\nd\n__all__ = [\n]\n\n");
    for line in cleaned.lines() {
        let line = line.trim_start();
        assert_ne!(line, "if __name__ == \"__main__\":");
        assert_ne!(line, "if __name__ == '__main__':");
    }
}

#[test]
fn export_list_of_cleaned_text_is_sorted_and_without_duplicates() {
    let text = "import zeta\nimport alpha\nimport zeta\nfrom m import alpha\nimport b.mid\n";
    let cleaned = clean_source(text).unwrap();
    assert_eq!(
        cleaned,
        "import zeta\nimport alpha\nimport zeta\nfrom m import alpha\nimport b.mid\n__all__ = [\n    \"alpha\",\n    \"mid\",\n    \"zeta\",\n]\n\n"
    );
}

#[test]
fn cleaning_again_leaves_the_closing_line_of_the_block_before() {
    let once = clean_source("import os\nx = 1\n").unwrap();
    assert_eq!(once, "import os\nx = 1\n__all__ = [\n    \"os\",\n]\n\n");
    let twice = clean_source(&once).unwrap();
    assert_eq!(twice, "import os\nx = 1\n]\n\n__all__ = [\n    \"os\",\n]\n\n");
    let empty = clean_source("").unwrap();
    assert_eq!(clean_source(&empty).unwrap(), "]\n\n__all__ = [\n]\n\n");
}

#[test]
fn carriage_returns_before_line_feeds_are_not_written_back() {
    assert_eq!(
        clean_source("import os\r\nx = 1\r\n"),
        Ok("import os\nx = 1\n__all__ = [\n    \"os\",\n]\n\n".to_string())
    );
}

#[test]
fn statements_handed_in_decide_the_export_list() {
    let text = "import os\nif __name__ == '__main__':\n    pass\n";
    assert_eq!(
        clean_with_statements(text, owned(&["import b as a", "from m import { c, a }"])),
        Ok("import os\n__all__ = [\n    \"a\",\n    \"c\",\n]\n\n".to_string())
    );
}

#[test]
fn malformed_statement_stops_the_cleaning() {
    assert_eq!(
        clean_with_statements("x\n", owned(&["import os", "from m"])),
        Err(MalformedImport { position: 1 })
    );
    assert_eq!(clean_with_statements("x\n", owned(&["import"])), Err(MalformedImport { position: 0 }));
}

#[test]
fn patterns_of_the_library_are_accepted_by_the_engine() {
    for text in ["", "import os\n", "from a import { b }\n", "\u{0}\u{10ffff}"] {
        assert_ne!(clean_source(text), Err(CleanError::PatternRefused));
        assert!(clean_source(text).is_ok());
    }
}

#[test]
fn only_files_named_as_entry_points_are_targets() {
    assert!(is_target_file_name("__init__.py"));
    assert!(!is_target_file_name("my__init__.py"));
    assert!(!is_target_file_name("__init__.pyc"));
    assert!(!is_target_file_name("__init__"));
    assert!(!is_target_file_name(""));
    assert!(!is_target_file_name("pkg/__init__.py"));
}
