use init_cleaner::segment::{
    is_block_interior_line, is_export_opener_line, is_main_guard_line,
    remove_main_and_all_blocks, BlockState,
};

fn owned(items: &[&str]) -> Vec<String> {
    items.iter().map(|s| s.to_string()).collect()
}

#[test]
fn main_guard_is_recognised_in_both_quote_styles() {
    assert!(is_main_guard_line("if __name__ == '__main__':"));
    assert!(is_main_guard_line("if __name__ == \"__main__\":"));
    assert!(is_main_guard_line("    if __name__ == \"__main__\":"));
    assert!(is_main_guard_line("\t if __name__ == '__main__':"));
}

#[test]
fn main_guard_must_be_the_whole_trimmed_line() {
    assert!(!is_main_guard_line("if __name__ == \"__main__\": run()"));
    assert!(!is_main_guard_line("if __name__ == \"__main__\": "));
    assert!(!is_main_guard_line("if __name__ == \"__main__\""));
    assert!(!is_main_guard_line("x if __name__ == \"__main__\":"));
    assert!(!is_main_guard_line(""));
    assert!(!is_main_guard_line("if __name__ == '__main__\":"));
}

#[test]
fn export_opener_is_a_prefix_of_the_trimmed_line() {
    assert!(is_export_opener_line("__all__ = ["));
    assert!(is_export_opener_line("__all__ = [\"pd\", \"F\"]"));
    assert!(is_export_opener_line("   __all__ = [ # names"));
    assert!(!is_export_opener_line("__all__ = ("));
    assert!(!is_export_opener_line("__all__=["));
    assert!(!is_export_opener_line("x.__all__ = ["));
    assert!(!is_export_opener_line("__all__ = "));
}

#[test]
fn block_interior_is_tab_four_spaces_or_blank() {
    assert!(is_block_interior_line("\tx"));
    assert!(is_block_interior_line("    x"));
    assert!(is_block_interior_line("     x"));
    assert!(is_block_interior_line(""));
    assert!(is_block_interior_line("   "));
    assert!(is_block_interior_line(" \t "));
    assert!(is_block_interior_line("\u{a0}"));
    assert!(!is_block_interior_line("   x"));
    assert!(!is_block_interior_line("x"));
    assert!(!is_block_interior_line(" \tx"));
    assert!(!is_block_interior_line("]"));
}

#[test]
fn step_opens_a_main_block_from_any_state() {
    let guard = "if __name__ == '__main__':";
    assert_eq!(BlockState::Normal.step(guard), (BlockState::InsideMainBlock, false));
    assert_eq!(BlockState::InsideMainBlock.step(guard), (BlockState::InsideMainBlock, false));
    assert_eq!(BlockState::InsideExportBlock.step(guard), (BlockState::InsideMainBlock, false));
}

#[test]
fn step_opens_an_export_block_from_any_state() {
    let opener = "__all__ = [";
    assert_eq!(BlockState::Normal.step(opener), (BlockState::InsideExportBlock, false));
    assert_eq!(BlockState::InsideMainBlock.step(opener), (BlockState::InsideExportBlock, false));
    assert_eq!(BlockState::InsideExportBlock.step(opener), (BlockState::InsideExportBlock, false));
}

#[test]
fn step_keeps_every_other_line_in_normal_state() {
    assert_eq!(BlockState::Normal.step("x = 1"), (BlockState::Normal, true));
    assert_eq!(BlockState::Normal.step("    x = 1"), (BlockState::Normal, true));
    assert_eq!(BlockState::Normal.step(""), (BlockState::Normal, true));
}

#[test]
fn step_drops_interior_lines_and_keeps_the_line_that_ends_a_block() {
    assert_eq!(BlockState::InsideMainBlock.step("    run()"), (BlockState::InsideMainBlock, false));
    assert_eq!(BlockState::InsideMainBlock.step(""), (BlockState::InsideMainBlock, false));
    assert_eq!(BlockState::InsideMainBlock.step("\trun()"), (BlockState::InsideMainBlock, false));
    assert_eq!(BlockState::InsideMainBlock.step("x = 1"), (BlockState::Normal, true));
    assert_eq!(
        BlockState::InsideExportBlock.step("    \"a\","),
        (BlockState::InsideExportBlock, false)
    );
    assert_eq!(BlockState::InsideExportBlock.step("]"), (BlockState::Normal, true));
    assert_eq!(BlockState::InsideExportBlock.step("  x"), (BlockState::Normal, true));
}

#[test]
fn main_block_goes_and_the_comment_behind_it_stays() {
    let lines = owned(&[
        "import os",
        "if __name__ == \"__main__\":",
        "    main()",
        "    print(1)",
        "# done",
        "x = 2",
    ]);
    assert_eq!(remove_main_and_all_blocks(lines), owned(&["import os", "# done", "x = 2"]));
}

#[test]
fn blank_lines_inside_a_block_go_with_it() {
    let lines = owned(&[
        "a",
        "if __name__ == '__main__':",
        "    one()",
        "",
        "    two()",
        "   ",
        "b",
        "",
        "c",
    ]);
    assert_eq!(remove_main_and_all_blocks(lines), owned(&["a", "b", "", "c"]));
}

#[test]
fn block_that_never_closes_takes_all_remaining_lines() {
    let lines = owned(&["a", "if __name__ == '__main__':", "    one()", "", "\ttwo()"]);
    assert_eq!(remove_main_and_all_blocks(lines), owned(&["a"]));
    let lines = owned(&["__all__ = [", "    \"x\",", "    \"y\","]);
    assert_eq!(remove_main_and_all_blocks(lines), Vec::<String>::new());
}

#[test]
fn export_list_goes_and_its_closing_line_stays() {
    let lines = owned(&["a", "__all__ = [", "    \"x\",", "    \"y\",", "]", "b"]);
    assert_eq!(remove_main_and_all_blocks(lines), owned(&["a", "]", "b"]));
}

#[test]
fn one_line_export_list_goes_whole() {
    let lines = owned(&["a", "__all__ = [\"x\", \"y\"]", "b"]);
    assert_eq!(remove_main_and_all_blocks(lines), owned(&["a", "b"]));
}

#[test]
fn only_one_block_is_open_at_a_time() {
    let lines = owned(&[
        "__all__ = [",
        "if __name__ == \"__main__\":",
        "x = 1",
        "    y = 2",
        "z = 3",
    ]);
    assert_eq!(remove_main_and_all_blocks(lines), owned(&["x = 1", "    y = 2", "z = 3"]));
}

#[test]
fn guard_that_ends_a_block_opens_the_next_one() {
    let lines = owned(&[
        "if __name__ == '__main__':",
        "    one()",
        "if __name__ == \"__main__\":",
        "    two()",
        "end",
    ]);
    assert_eq!(remove_main_and_all_blocks(lines), owned(&["end"]));
}

#[test]
fn indented_guard_opens_a_block_too() {
    let lines = owned(&["def f():", "    if __name__ == '__main__':", "        g()", "h()"]);
    assert_eq!(remove_main_and_all_blocks(lines), owned(&["def f():", "h()"]));
}

#[test]
fn kept_lines_hold_no_guard_and_no_opener() {
    let lines = owned(&[
        "a",
        "  if __name__ == '__main__':",
        "b",
        "if __name__ == \"__main__\":",
        "    c",
        "__all__ = [1]",
        "d",
        "\t__all__ = [",
        "e",
    ]);
    let kept = remove_main_and_all_blocks(lines);
    assert_eq!(kept, owned(&["a", "b", "d", "e"]));
    for line in &kept {
        assert!(!is_main_guard_line(line));
        assert!(!is_export_opener_line(line));
    }
}

#[test]
fn filtering_kept_lines_again_changes_nothing() {
    let lines = owned(&[
        "a",
        "if __name__ == '__main__':",
        "    b",
        "c",
        "    d",
        "__all__ = [",
        "    \"e\",",
        "]",
        "",
    ]);
    let once = remove_main_and_all_blocks(lines);
    assert_eq!(once, owned(&["a", "c", "    d", "]", ""]));
    let twice = remove_main_and_all_blocks(once.clone());
    assert_eq!(twice, once);
}

#[test]
fn no_lines_give_no_lines() {
    assert_eq!(remove_main_and_all_blocks(Vec::new()), Vec::<String>::new());
}
