//! Cleaning a whole file: from its text to the text that replaces it.

use vstd::prelude::*;
use crate::export::{
    entry_line, export_block, export_block_lines, export_order, is_ascending,
    lemma_block_frame_as_read, lemma_entry_line_as_read, lemma_export_block_lines_are_plain,
    lemma_export_order,
    same_names, AllExports, BLOCK_CLOSER,
};
use crate::extract::{import_statements, prepare_import_list};
use crate::lines::{
    holds_no_carriage_return, is_plain_line, join_lines, lemma_join_concat, lemma_join_single,
    lemma_lines_of_plain_text, lemma_split_of_joined, lines_of, split_lines, text_of, LINE_END,
};
use crate::resolve::{
    all_bound_names, all_well_formed, is_first_malformed, lemma_all_bound_names_hold_no_space,
    MalformedImport, PyImports,
};
use crate::segment::{
    filter_from, filter_lines, is_main_guard, lemma_filter_concat, lemma_filter_single,
    lemma_kept_lines_are_input_lines, lemma_kept_lines_open_no_block,
    lemma_lines_without_blocks_are_kept, remove_main_and_all_blocks, BlockState, EXPORT_OPENER,
    MAIN_GUARD_DOUBLE, MAIN_GUARD_SINGLE,
};
use crate::text::{holds_no_space, same_text, trim_start};

verus! {

/// The name of the files that are cleaned.
pub const TARGET_FILE_NAME: &'static str = "__init__.py";

/// Why a file could not be cleaned.
#[derive(Clone, Copy, Debug, PartialEq, Eq, Structural)]
pub enum CleanError {
    /// The regex engine did not accept one of the library's patterns.
    PatternRefused,
    /// An import statement lacks a token that the resolver needs.
    MalformedImport {
        /// The position of the statement among the import statements of the
        /// file.
        position: usize,
    },
}

/// The text that replaces a file with the text `text` and the import
/// statements `statements`: the kept lines, then the export block of the
/// names that the statements bind, then one empty line.
pub open spec fn cleaned_text(text: Seq<char>, statements: Seq<Seq<char>>) -> Seq<char> {
    join_lines(filter_lines(split_lines(text))) + export_block(
        export_order(all_bound_names(statements)),
    ) + LINE_END@
}

/// The lines of the text that replaces a file: the kept lines, the lines of
/// the export block, and one empty line.
pub open spec fn cleaned_lines(text: Seq<char>, statements: Seq<Seq<char>>) -> Seq<Seq<char>> {
    filter_lines(split_lines(text)) + export_block_lines(
        export_order(all_bound_names(statements)),
    ) + seq![Seq::<char>::empty()]
}

/// Whether a file with the name `name`, taken without its directories, is one
/// that is cleaned.
pub fn is_target_file_name(name: &str) -> (r: bool)
    ensures
        r == (name@ == TARGET_FILE_NAME@),
{
    same_text(name, TARGET_FILE_NAME)
}

/// The text that replaces a file with the text `text`, given its import
/// statements: the main blocks and export lists are removed from its lines,
/// and the export block of the names that `statements` bind is put behind
/// them. A malformed statement is reported instead, the first one if there
/// are several.
pub fn clean_with_statements(text: &str, statements: Vec<String>) -> (r: Result<
    String,
    MalformedImport,
>)
    ensures
        match r {
            Ok(cleaned) => {
                &&& all_well_formed(statements.deep_view())
                &&& cleaned@ == cleaned_text(text@, statements.deep_view())
            },
            Err(e) => is_first_malformed(statements.deep_view(), e.position as int),
        },
{
    let kept = remove_main_and_all_blocks(lines_of(text));
    let imports = match PyImports::from_list_of_strings(statements) {
        Ok(imports) => imports,
        Err(e) => {
            return Err(e);
        },
    };
    let exports = AllExports::from_imports(imports);
    let mut cleaned = text_of(&kept);
    let block = exports.into_string();
    cleaned.append(block.as_str());
    cleaned.append(LINE_END);
    Ok(cleaned)
}

/// The text that replaces a file with the text `text`: its lines without
/// main blocks and export lists, then the export block of the names that its
/// import statements bind, then one empty line.
///
/// A malformed import statement is reported, the first one if there are
/// several. The other error comes only where the regex engine refuses a
/// pattern of the library.
pub fn clean_source(text: &str) -> (r: Result<String, CleanError>)
    ensures
        match r {
            Ok(cleaned) => {
                &&& all_well_formed(import_statements(text@))
                &&& cleaned@ == cleaned_text(text@, import_statements(text@))
            },
            Err(CleanError::MalformedImport { position }) => is_first_malformed(
                import_statements(text@),
                position as int,
            ),
            Err(CleanError::PatternRefused) => true,
        },
{
    let statements = match prepare_import_list(text) {
        Ok(statements) => statements,
        Err(_) => {
            return Err(CleanError::PatternRefused);
        },
    };
    match clean_with_statements(text, statements) {
        Ok(cleaned) => Ok(cleaned),
        Err(e) => Err(CleanError::MalformedImport { position: e.position }),
    }
}

/// The text that replaces a file holds the lines of [`cleaned_lines`], each
/// followed by a line feed.
pub proof fn lemma_cleaned_text_is_its_lines(text: Seq<char>, statements: Seq<Seq<char>>)
    ensures
        cleaned_text(text, statements) == join_lines(cleaned_lines(text, statements)),
{
    let kept = filter_lines(split_lines(text));
    let block = export_block_lines(export_order(all_bound_names(statements)));
    let last = seq![Seq::<char>::empty()];
    lemma_join_concat(kept, block);
    lemma_join_concat(kept + block, last);
    lemma_join_single(Seq::<char>::empty());
    assert(join_lines(last) =~= LINE_END@);
}

/// No line of the text that replaces a file is a main-block guard, in either
/// quote style, whatever the file held.
pub proof fn lemma_cleaned_lines_hold_no_guard(text: Seq<char>, statements: Seq<Seq<char>>)
    ensures
        forall|i: int|
            0 <= i < cleaned_lines(text, statements).len() ==> !is_main_guard(
                #[trigger] cleaned_lines(text, statements)[i],
            ),
{
    let kept = filter_lines(split_lines(text));
    let names = export_order(all_bound_names(statements));
    let all = cleaned_lines(text, statements);
    lemma_kept_lines_open_no_block(BlockState::Normal, split_lines(text));
    assert forall|i: int| 0 <= i < all.len() implies !is_main_guard(#[trigger] all[i]) by {
        if i < kept.len() {
            assert(all[i] == kept[i]);
        } else if i == kept.len() {
            lemma_block_frame_as_read();
            assert(all[i] == EXPORT_OPENER@);
        } else if i <= kept.len() + names.len() {
            let name = names[i - kept.len() - 1];
            lemma_entry_line_as_read(name);
            assert(all[i] == entry_line(name));
        } else if i == kept.len() + names.len() + 1 {
            lemma_block_frame_as_read();
            assert(all[i] == BLOCK_CLOSER@);
        } else {
            reveal_strlit("if __name__ == '__main__':");
            reveal_strlit("if __name__ == \"__main__\":");
            assert(all[i] =~= Seq::<char>::empty());
            assert(trim_start(all[i]).len() == 0);
        }
    }
}

/// The export list of the text that replaces a file is in ascending order,
/// holds no name twice, and holds the names that the import statements bind,
/// and no others.
pub proof fn lemma_cleaned_export_list(statements: Seq<Seq<char>>)
    ensures
        is_ascending(export_order(all_bound_names(statements))),
        export_order(all_bound_names(statements)).no_duplicates(),
        same_names(export_order(all_bound_names(statements)), all_bound_names(statements)),
{
    lemma_export_order(all_bound_names(statements));
}

/// Reading entries of an export block in an open export list keeps none of
/// them and leaves the list open.
proof fn lemma_entries_are_dropped(names: Seq<Seq<char>>)
    ensures
        filter_from(
            BlockState::InsideExportBlock,
            names.map_values(|name: Seq<char>| entry_line(name)),
        ) == Seq::<Seq<char>>::empty(),
        BlockState::InsideExportBlock.after_all(
            names.map_values(|name: Seq<char>| entry_line(name)),
        ) == BlockState::InsideExportBlock,
    decreases names.len(),
{
    let entries = names.map_values(|name: Seq<char>| entry_line(name));
    if names.len() > 0 {
        lemma_entries_are_dropped(names.drop_last());
        lemma_entry_line_as_read(names.last());
        assert(entries.drop_last() =~= names.drop_last().map_values(
            |name: Seq<char>| entry_line(name),
        ));
        assert(entries.last() == entry_line(names.last()));
    }
}

/// What the segmenter keeps of the lines that it wrote. The kept lines of
/// the file are kept again. Of the export block the opening line and the
/// entries go, and the closing line stays, with the empty line behind it.
/// So cleaning a cleaned text does not give the same text again: each pass
/// leaves the closing line of the block before.
pub proof fn lemma_cleaned_lines_read_again(text: Seq<char>, statements: Seq<Seq<char>>)
    ensures
        filter_lines(cleaned_lines(text, statements)) == filter_lines(split_lines(text)) + seq![
            BLOCK_CLOSER@,
            Seq::<char>::empty(),
        ],
{
    let kept = filter_lines(split_lines(text));
    let names = export_order(all_bound_names(statements));
    let entries = names.map_values(|name: Seq<char>| entry_line(name));
    let opener = seq![EXPORT_OPENER@];
    let tail = seq![BLOCK_CLOSER@, Seq::<char>::empty()];
    let normal = BlockState::Normal;
    let inside = BlockState::InsideExportBlock;
    assert(cleaned_lines(text, statements) =~= kept + (opener + (entries + tail)));

    lemma_kept_lines_open_no_block(normal, split_lines(text));
    lemma_lines_without_blocks_are_kept(kept);
    lemma_filter_concat(normal, kept, opener + (entries + tail));

    lemma_block_frame_as_read();
    lemma_filter_single(normal, EXPORT_OPENER@);
    lemma_filter_concat(normal, opener, entries + tail);

    lemma_entries_are_dropped(names);
    lemma_filter_concat(inside, entries, tail);

    reveal_strlit("if __name__ == '__main__':");
    reveal_strlit("if __name__ == \"__main__\":");
    reveal_strlit("__all__ = [");
    let closer_only = seq![BLOCK_CLOSER@];
    let empty_only = seq![Seq::<char>::empty()];
    assert(tail =~= closer_only + empty_only);
    assert(trim_start(Seq::<char>::empty()).len() == 0);
    lemma_filter_single(inside, BLOCK_CLOSER@);
    lemma_filter_single(normal, Seq::<char>::empty());
    lemma_filter_concat(inside, closer_only, empty_only);
}

/// A cleaned text, read again, has the lines of [`cleaned_lines`], if the
/// file held no carriage return.
pub proof fn lemma_lines_of_cleaned_text(text: Seq<char>, statements: Seq<Seq<char>>)
    requires
        holds_no_carriage_return(text),
    ensures
        split_lines(cleaned_text(text, statements)) == cleaned_lines(text, statements),
{
    let kept = filter_lines(split_lines(text));
    let names = export_order(all_bound_names(statements));
    let block = export_block_lines(names);
    let all = cleaned_lines(text, statements);
    lemma_lines_of_plain_text(text);
    lemma_kept_lines_are_input_lines(BlockState::Normal, split_lines(text));
    lemma_names_in_export_order_hold_no_space(statements);
    lemma_export_block_lines_are_plain(names);
    assert forall|i: int| 0 <= i < all.len() implies is_plain_line(#[trigger] all[i]) by {
        if i < kept.len() {
            assert(all[i] == kept[i]);
            assert(split_lines(text).contains(kept[i]));
        } else if i < kept.len() + block.len() {
            assert(all[i] == block[i - kept.len()]);
        } else {
            assert(all[i] =~= Seq::<char>::empty());
        }
    }
    lemma_split_of_joined(all);
    lemma_cleaned_text_is_its_lines(text, statements);
}

/// The names of an export list hold no whitespace.
pub proof fn lemma_names_in_export_order_hold_no_space(statements: Seq<Seq<char>>)
    ensures
        forall|i: int|
            0 <= i < export_order(all_bound_names(statements)).len() ==> holds_no_space(
                #[trigger] export_order(all_bound_names(statements))[i],
            ),
{
    let bound = all_bound_names(statements);
    let names = export_order(bound);
    lemma_export_order(bound);
    lemma_all_bound_names_hold_no_space(statements);
    assert forall|i: int| 0 <= i < names.len() implies holds_no_space(#[trigger] names[i]) by {
        assert(names.contains(names[i]));
        assert(bound.contains(names[i]));
    }
}

/// Cleaning is not idempotent. The lines that a second cleaning keeps are
/// those that the first one kept, the closing line of the first export
/// block, and the empty line behind it; so the second text differs from the
/// first, whatever the import statements of either are. This is stated of
/// files without carriage returns.
pub proof fn lemma_cleaning_again_differs(
    text: Seq<char>,
    first: Seq<Seq<char>>,
    second: Seq<Seq<char>>,
)
    requires
        holds_no_carriage_return(text),
    ensures
        filter_lines(split_lines(cleaned_text(text, first))) == filter_lines(split_lines(text))
            + seq![BLOCK_CLOSER@, Seq::<char>::empty()],
        cleaned_text(cleaned_text(text, first), second) != cleaned_text(text, first),
{
    let once = cleaned_text(text, first);
    let twice = cleaned_text(once, second);
    let kept = filter_lines(split_lines(text));
    let kept_again = filter_lines(split_lines(once));
    let names = export_order(all_bound_names(second));
    let block = export_block_lines(names);
    let lines_once = cleaned_lines(text, first);
    let lines_twice = cleaned_lines(once, second);

    // The first text, read again, has the lines `lines_once`.
    lemma_lines_of_cleaned_text(text, first);
    lemma_cleaned_lines_read_again(text, first);

    // So has the second text the lines `lines_twice`.
    lemma_lines_of_plain_text(text);
    lemma_kept_lines_are_input_lines(BlockState::Normal, split_lines(text));
    lemma_names_in_export_order_hold_no_space(second);
    lemma_export_block_lines_are_plain(names);
    reveal_strlit("]");
    assert forall|i: int| 0 <= i < lines_twice.len() implies is_plain_line(
        #[trigger] lines_twice[i],
    ) by {
        if i < kept.len() {
            assert(lines_twice[i] == kept[i]);
        } else if i == kept.len() {
            assert(lines_twice[i] == BLOCK_CLOSER@);
        } else if i == kept.len() + 1 {
            assert(lines_twice[i] =~= Seq::<char>::empty());
        } else if i < kept_again.len() + block.len() {
            assert(lines_twice[i] == block[i - kept_again.len()]);
        } else {
            assert(lines_twice[i] =~= Seq::<char>::empty());
        }
    }
    lemma_split_of_joined(lines_twice);
    lemma_cleaned_text_is_its_lines(once, second);
    assert(split_lines(once) == lines_once);
    assert(split_lines(twice) == lines_twice);

    // Behind the kept lines the two differ.
    reveal_strlit("__all__ = [");
    assert(lines_once[kept.len() as int] == EXPORT_OPENER@);
    assert(lines_twice[kept.len() as int] == BLOCK_CLOSER@);
}

} // verus!
