//! The line segmenter: which lines of a file are kept.
//!
//! A file is read line by line with one state, [`BlockState`]. A main-block
//! guard or the opening of an export list starts a block; the block goes on
//! over indented and blank lines, and the first line that is neither ends it
//! and is kept. Only one block is open at a time.

use vstd::prelude::*;
use crate::text::{
    has_prefix_at, is_blank, is_space, lemma_blank_skips_all, same_chars, skip_spaces,
    skip_spaces_in, to_chars, trim_start,
};

verus! {

/// The main-block guard, written with single quotes.
pub const MAIN_GUARD_SINGLE: &'static str = "if __name__ == '__main__':";

/// The main-block guard, written with double quotes.
pub const MAIN_GUARD_DOUBLE: &'static str = "if __name__ == \"__main__\":";

/// The text that opens an export list.
pub const EXPORT_OPENER: &'static str = "__all__ = [";

/// The indent that keeps a line inside a block.
pub const BLOCK_INDENT: &'static str = "    ";

/// What the segmenter is reading.
#[derive(Clone, Copy, Debug, PartialEq, Eq, Structural)]
pub enum BlockState {
    /// No block is open.
    Normal,
    /// The body of a main-block guard.
    InsideMainBlock,
    /// The entries of an export list.
    InsideExportBlock,
}

/// Whether `line`, without its leading whitespace, is a main-block guard in
/// either quote style.
pub open spec fn is_main_guard(line: Seq<char>) -> bool {
    trim_start(line) == MAIN_GUARD_SINGLE@ || trim_start(line) == MAIN_GUARD_DOUBLE@
}

/// Whether `line`, without its leading whitespace, starts with the opening of
/// an export list.
pub open spec fn is_export_opener(line: Seq<char>) -> bool {
    EXPORT_OPENER@.is_prefix_of(trim_start(line))
}

/// Whether `line` still belongs to an open block: it starts with a tab or
/// with four spaces, or it is blank.
pub open spec fn is_block_interior(line: Seq<char>) -> bool {
    ||| line.len() > 0 && line[0] == '\t'
    ||| BLOCK_INDENT@.is_prefix_of(line)
    ||| is_blank(line)
}

impl BlockState {
    /// The state after `line` has been read in state `self`.
    pub open spec fn after(self, line: Seq<char>) -> BlockState {
        if is_main_guard(line) {
            BlockState::InsideMainBlock
        } else if is_export_opener(line) {
            BlockState::InsideExportBlock
        } else if self != BlockState::Normal && is_block_interior(line) {
            self
        } else {
            BlockState::Normal
        }
    }

    /// Whether `line`, read in state `self`, is kept.
    pub open spec fn keeps(self, line: Seq<char>) -> bool {
        &&& !is_main_guard(line)
        &&& !is_export_opener(line)
        &&& (self == BlockState::Normal || !is_block_interior(line))
    }

    /// The state after all of `lines` have been read, starting in `self`.
    pub open spec fn after_all(self, lines: Seq<Seq<char>>) -> BlockState
        decreases lines.len(),
    {
        if lines.len() == 0 {
            self
        } else {
            self.after_all(lines.drop_last()).after(lines.last())
        }
    }

    /// Reads one line: the next state, and whether the line is kept.
    pub fn step(self, line: &str) -> (r: (BlockState, bool))
        ensures
            r.0 == self.after(line@),
            r.1 == self.keeps(line@),
    {
        let cs = to_chars(line);
        if main_guard_in(&cs) {
            (BlockState::InsideMainBlock, false)
        } else if export_opener_in(&cs) {
            (BlockState::InsideExportBlock, false)
        } else {
            match self {
                BlockState::Normal => (BlockState::Normal, true),
                _ => {
                    if block_interior_in(&cs) {
                        (self, false)
                    } else {
                        (BlockState::Normal, true)
                    }
                },
            }
        }
    }
}

/// The lines of `lines` that are kept when reading starts in `state`.
pub open spec fn filter_from(state: BlockState, lines: Seq<Seq<char>>) -> Seq<Seq<char>>
    decreases lines.len(),
{
    if lines.len() == 0 {
        Seq::empty()
    } else {
        let before = filter_from(state, lines.drop_last());
        if state.after_all(lines.drop_last()).keeps(lines.last()) {
            before.push(lines.last())
        } else {
            before
        }
    }
}

/// The lines of a file that are kept.
pub open spec fn filter_lines(lines: Seq<Seq<char>>) -> Seq<Seq<char>> {
    filter_from(BlockState::Normal, lines)
}

/// No kept line is a main-block guard or opens an export list, whatever the
/// lines and the state in which reading starts.
pub proof fn lemma_kept_lines_open_no_block(state: BlockState, lines: Seq<Seq<char>>)
    ensures
        forall|i: int|
            0 <= i < filter_from(state, lines).len() ==> {
                &&& !is_main_guard(#[trigger] filter_from(state, lines)[i])
                &&& !is_export_opener(filter_from(state, lines)[i])
            },
    decreases lines.len(),
{
    if lines.len() > 0 {
        let init = lines.drop_last();
        lemma_kept_lines_open_no_block(state, init);
        assert forall|i: int| 0 <= i < filter_from(state, lines).len() implies !is_main_guard(
            #[trigger] filter_from(state, lines)[i],
        ) && !is_export_opener(filter_from(state, lines)[i]) by {
            if i < filter_from(state, init).len() {
                assert(filter_from(state, lines)[i] == filter_from(state, init)[i]);
            }
        }
    }
}

/// Every kept line is a line of the input.
pub proof fn lemma_kept_lines_are_input_lines(state: BlockState, lines: Seq<Seq<char>>)
    ensures
        filter_from(state, lines).len() <= lines.len(),
        forall|i: int|
            0 <= i < filter_from(state, lines).len() ==> lines.contains(
                #[trigger] filter_from(state, lines)[i],
            ),
    decreases lines.len(),
{
    if lines.len() > 0 {
        let init = lines.drop_last();
        lemma_kept_lines_are_input_lines(state, init);
        assert forall|i: int| 0 <= i < filter_from(state, lines).len() implies lines.contains(
            #[trigger] filter_from(state, lines)[i],
        ) by {
            let line = filter_from(state, lines)[i];
            if i < filter_from(state, init).len() {
                let j = choose|j: int| 0 <= j < init.len() && init[j] == line;
                assert(lines[j] == line);
            } else {
                assert(lines[lines.len() - 1] == line);
            }
        }
    }
}

/// Reading one line keeps it or not, and leaves the state that the line
/// brings about.
pub proof fn lemma_filter_single(state: BlockState, line: Seq<char>)
    ensures
        state.after_all(seq![line]) == state.after(line),
        filter_from(state, seq![line]) == if state.keeps(line) {
            seq![line]
        } else {
            Seq::<Seq<char>>::empty()
        },
{
    let single = seq![line];
    assert(single.drop_last() =~= Seq::<Seq<char>>::empty());
    assert(state.after_all(single.drop_last()) == state);
    assert(filter_from(state, single.drop_last()) =~= Seq::<Seq<char>>::empty());
    assert(Seq::<Seq<char>>::empty().push(line) =~= single);
}

/// Reading `a` and then `b` keeps what reading `a` keeps, followed by what
/// reading `b` keeps in the state that `a` leaves.
pub proof fn lemma_filter_concat(state: BlockState, a: Seq<Seq<char>>, b: Seq<Seq<char>>)
    ensures
        state.after_all(a + b) == state.after_all(a).after_all(b),
        filter_from(state, a + b) == filter_from(state, a) + filter_from(state.after_all(a), b),
    decreases b.len(),
{
    if b.len() == 0 {
        assert(a + b =~= a);
        assert(filter_from(state, a) + Seq::<Seq<char>>::empty() =~= filter_from(state, a));
    } else {
        lemma_filter_concat(state, a, b.drop_last());
        assert((a + b).drop_last() =~= a + b.drop_last());
        assert((a + b).last() == b.last());
        let mid = state.after_all(a);
        if mid.after_all(b.drop_last()).keeps(b.last()) {
            assert(filter_from(state, a + b) =~= filter_from(state, a) + filter_from(mid, b));
        }
    }
}

/// Lines of which none is a main-block guard and none opens an export list
/// are all kept, and leave no block open.
pub proof fn lemma_lines_without_blocks_are_kept(lines: Seq<Seq<char>>)
    requires
        forall|i: int|
            0 <= i < lines.len() ==> !is_main_guard(#[trigger] lines[i]) && !is_export_opener(
                lines[i],
            ),
    ensures
        filter_lines(lines) == lines,
        BlockState::Normal.after_all(lines) == BlockState::Normal,
    decreases lines.len(),
{
    if lines.len() > 0 {
        lemma_lines_without_blocks_are_kept(lines.drop_last());
        assert(lines.drop_last().push(lines.last()) =~= lines);
    }
}

/// Filtering is idempotent: the kept lines of a file, read again, are all
/// kept.
pub proof fn lemma_filter_idempotent(lines: Seq<Seq<char>>)
    ensures
        filter_lines(filter_lines(lines)) == filter_lines(lines),
{
    lemma_kept_lines_open_no_block(BlockState::Normal, lines);
    lemma_lines_without_blocks_are_kept(filter_lines(lines));
}

/// Decides [`is_main_guard`] on the characters of a line.
fn main_guard_in(cs: &Vec<char>) -> (r: bool)
    ensures
        r == is_main_guard(cs@),
{
    let k: usize = skip_spaces_in(cs, 0);
    let single = to_chars(MAIN_GUARD_SINGLE);
    let double = to_chars(MAIN_GUARD_DOUBLE);
    let n: usize = cs.len() - k;
    proof {
        let t = cs@.skip(k as int);
        assert(t.len() == n);
        assert(single@.is_prefix_of(t) && single@.len() == n ==> t =~= single@);
        assert(double@.is_prefix_of(t) && double@.len() == n ==> t =~= double@);
        assert(t == single@ ==> single@.is_prefix_of(t));
        assert(t == double@ ==> double@.is_prefix_of(t));
    }
    (single.len() == n && has_prefix_at(cs, k, &single)) || (double.len() == n && has_prefix_at(
        cs,
        k,
        &double,
    ))
}

/// Decides [`is_export_opener`] on the characters of a line.
fn export_opener_in(cs: &Vec<char>) -> (r: bool)
    ensures
        r == is_export_opener(cs@),
{
    let k: usize = skip_spaces_in(cs, 0);
    let opener = to_chars(EXPORT_OPENER);
    has_prefix_at(cs, k, &opener)
}

/// Decides [`is_block_interior`] on the characters of a line.
fn block_interior_in(cs: &Vec<char>) -> (r: bool)
    ensures
        r == is_block_interior(cs@),
{
    if cs.len() > 0 && cs[0] == '\t' {
        return true;
    }
    let indent = to_chars(BLOCK_INDENT);
    proof {
        assert(cs@.skip(0) =~= cs@);
        lemma_blank_skips_all(cs@);
    }
    if has_prefix_at(cs, 0, &indent) {
        return true;
    }
    skip_spaces_in(cs, 0) == cs.len()
}

/// Decides [`is_main_guard`].
pub fn is_main_guard_line(line: &str) -> (r: bool)
    ensures
        r == is_main_guard(line@),
{
    let cs = to_chars(line);
    main_guard_in(&cs)
}

/// Decides [`is_export_opener`].
pub fn is_export_opener_line(line: &str) -> (r: bool)
    ensures
        r == is_export_opener(line@),
{
    let cs = to_chars(line);
    export_opener_in(&cs)
}

/// Decides [`is_block_interior`].
pub fn is_block_interior_line(line: &str) -> (r: bool)
    ensures
        r == is_block_interior(line@),
{
    let cs = to_chars(line);
    block_interior_in(&cs)
}

/// Removes every main block and every export list from `lines`: the line that
/// opens one, and the indented and blank lines that follow it. The line that
/// ends a block is kept.
pub fn remove_main_and_all_blocks(lines: Vec<String>) -> (cleaned: Vec<String>)
    ensures
        cleaned.deep_view() == filter_lines(lines.deep_view()),
        forall|i: int|
            0 <= i < cleaned.len() ==> {
                &&& !is_main_guard(#[trigger] cleaned[i]@)
                &&& !is_export_opener(cleaned[i]@)
            },
{
    let mut cleaned: Vec<String> = Vec::new();
    let mut state = BlockState::Normal;
    let ghost all = lines.deep_view();
    for line in it: lines
        invariant
            it.seq().len() == all.len(),
            forall|j: int| 0 <= j < all.len() ==> (#[trigger] it.seq()[j])@ == all[j],
            state == BlockState::Normal.after_all(all.take(it.index() as int)),
            cleaned.deep_view() == filter_from(BlockState::Normal, all.take(it.index() as int)),
    {
        let ghost i = it.index() as int;
        let ghost before = cleaned.deep_view();
        let (next, keep) = state.step(line.as_str());
        proof {
            assert(all.take(i + 1).drop_last() =~= all.take(i));
            assert(all.take(i + 1).last() == line@);
        }
        if keep {
            cleaned.push(line);
            assert(cleaned.deep_view() =~= before.push(line@));
        }
        state = next;
    }
    proof {
        assert(all.take(all.len() as int) =~= all);
        lemma_kept_lines_open_no_block(BlockState::Normal, all);
        assert forall|i: int| 0 <= i < cleaned.len() implies !is_main_guard(
            #[trigger] cleaned[i]@,
        ) && !is_export_opener(cleaned[i]@) by {
            assert(cleaned.deep_view()[i] == cleaned[i]@);
        }
    }
    cleaned
}

} // verus!
