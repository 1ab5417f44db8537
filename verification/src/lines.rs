//! Lines: how a text is cut into lines, and how lines are written as a text.

use vstd::prelude::*;
use crate::text::to_chars;

verus! {

/// What ends a line in the text that is written.
pub const LINE_END: &'static str = "\n";

/// The first position at or after `from` that holds a line feed; the length
/// of `text` when none follows.
pub open spec fn line_end(text: Seq<char>, from: int) -> int
    decreases text.len() - from,
{
    if 0 <= from < text.len() && text[from] != '\n' {
        line_end(text, from + 1)
    } else {
        from
    }
}

/// `line` without one trailing carriage return.
pub open spec fn without_carriage_return(line: Seq<char>) -> Seq<char> {
    if line.len() > 0 && line.last() == '\r' {
        line.drop_last()
    } else {
        line
    }
}

/// The lines of `text` from position `from` on. A line ends at a line feed,
/// or at a carriage return and a line feed, and holds neither; what follows
/// the last line feed is a line if it is not empty.
pub open spec fn lines_from(text: Seq<char>, from: int) -> Seq<Seq<char>>
    decreases text.len() - from,
{
    let end = line_end(text, from);
    if 0 <= from <= end < text.len() {
        seq![without_carriage_return(text.subrange(from, end))] + lines_from(text, end + 1)
    } else if 0 <= from < end == text.len() {
        seq![text.subrange(from, end)]
    } else {
        Seq::empty()
    }
}

/// The lines of `text`.
pub open spec fn split_lines(text: Seq<char>) -> Seq<Seq<char>> {
    lines_from(text, 0)
}

/// The text that holds `lines`, each followed by a line feed.
pub open spec fn join_lines(lines: Seq<Seq<char>>) -> Seq<char>
    decreases lines.len(),
{
    if lines.len() == 0 {
        Seq::empty()
    } else {
        join_lines(lines.drop_last()) + lines.last() + LINE_END@
    }
}

/// Whether `line` comes back as it is when it is written and read again: it
/// holds no line feed and does not end in a carriage return.
pub open spec fn is_plain_line(line: Seq<char>) -> bool {
    &&& forall|i: int| 0 <= i < line.len() ==> #[trigger] line[i] != '\n'
    &&& line.len() > 0 ==> line.last() != '\r'
}

/// Whether `text` holds no carriage return.
pub open spec fn holds_no_carriage_return(text: Seq<char>) -> bool {
    forall|i: int| 0 <= i < text.len() ==> #[trigger] text[i] != '\r'
}

/// What [`line_end`] returns lies in range, passes no line feed, and stops
/// at one.
pub proof fn lemma_line_end(text: Seq<char>, from: int)
    requires
        0 <= from <= text.len(),
    ensures
        from <= line_end(text, from) <= text.len(),
        forall|i: int| from <= i < line_end(text, from) ==> #[trigger] text[i] != '\n',
        line_end(text, from) < text.len() ==> text[line_end(text, from)] == '\n',
    decreases text.len() - from,
{
    if from < text.len() && text[from] != '\n' {
        lemma_line_end(text, from + 1);
    }
}

/// One line is written as itself and a line feed.
pub proof fn lemma_join_single(line: Seq<char>)
    ensures
        join_lines(seq![line]) == line + LINE_END@,
{
    let single = seq![line];
    assert(single.drop_last() =~= Seq::<Seq<char>>::empty());
    assert(join_lines(single.drop_last()) =~= Seq::<char>::empty());
    assert(join_lines(single) =~= line + LINE_END@);
}

/// Writing lines behind other lines puts their texts one behind the other.
pub proof fn lemma_join_concat(a: Seq<Seq<char>>, b: Seq<Seq<char>>)
    ensures
        join_lines(a + b) == join_lines(a) + join_lines(b),
    decreases b.len(),
{
    if b.len() == 0 {
        assert(a + b =~= a);
        assert(join_lines(a) + join_lines(b) =~= join_lines(a));
    } else {
        lemma_join_concat(a, b.drop_last());
        assert((a + b).drop_last() =~= a + b.drop_last());
        assert((a + b).last() == b.last());
        assert(join_lines(a + b) =~= join_lines(a) + join_lines(b));
    }
}

/// A position that is reached over characters other than line feeds, and
/// that holds a line feed or ends the text, is the one that [`line_end`]
/// finds.
pub proof fn lemma_line_end_is(text: Seq<char>, from: int, end: int)
    requires
        0 <= from <= end <= text.len(),
        forall|i: int| from <= i < end ==> #[trigger] text[i] != '\n',
        end < text.len() ==> text[end] == '\n',
    ensures
        line_end(text, from) == end,
    decreases end - from,
{
    if from < end {
        lemma_line_end_is(text, from + 1, end);
    }
}

/// The lines of a text do not depend on what stands before the position
/// from which they are read.
pub proof fn lemma_lines_from_shift(before: Seq<char>, text: Seq<char>, from: int)
    requires
        0 <= from <= text.len(),
    ensures
        lines_from(before + text, before.len() + from) == lines_from(text, from),
    decreases text.len() - from,
{
    let whole = before + text;
    let shift = before.len() as int;
    lemma_line_end(text, from);
    let end = line_end(text, from);
    assert forall|i: int| shift + from <= i < shift + end implies #[trigger] whole[i] != '\n' by {
        assert(whole[i] == text[i - shift]);
    }
    if end < text.len() {
        assert(whole[shift + end] == text[end]);
    }
    lemma_line_end_is(whole, shift + from, shift + end);
    assert(whole.subrange(shift + from, shift + end) =~= text.subrange(from, end));
    if end < text.len() {
        lemma_lines_from_shift(before, text, end + 1);
    }
}

/// A line before other lines is written as itself, a line feed, and the
/// text of the others.
pub proof fn lemma_join_front(line: Seq<char>, rest: Seq<Seq<char>>)
    ensures
        join_lines(seq![line] + rest) == line + LINE_END@ + join_lines(rest),
{
    lemma_join_concat(seq![line], rest);
    lemma_join_single(line);
}

/// Lines that are written and read again come back as they were, if each of
/// them holds no line feed and does not end in a carriage return.
pub proof fn lemma_split_of_joined(lines: Seq<Seq<char>>)
    requires
        forall|i: int| 0 <= i < lines.len() ==> is_plain_line(#[trigger] lines[i]),
    ensures
        split_lines(join_lines(lines)) == lines,
    decreases lines.len(),
{
    reveal_strlit("\n");
    if lines.len() == 0 {
        assert(split_lines(join_lines(lines)) =~= lines);
    } else {
        let line = lines[0];
        let rest = lines.drop_first();
        assert(lines =~= seq![line] + rest);
        lemma_join_front(line, rest);
        let head = line + LINE_END@;
        let text = head + join_lines(rest);
        assert(join_lines(lines) == text);
        let end = line.len() as int;
        assert(is_plain_line(line));
        assert forall|i: int| 0 <= i < end implies #[trigger] text[i] != '\n' by {
            assert(text[i] == line[i]);
        }
        assert(text[end] == '\n');
        lemma_line_end_is(text, 0, end);
        assert(text.subrange(0, end) =~= line);
        assert forall|i: int| 0 <= i < rest.len() implies is_plain_line(#[trigger] rest[i]) by {
            assert(rest[i] == lines[i + 1]);
        }
        lemma_split_of_joined(rest);
        lemma_lines_from_shift(head, join_lines(rest), 0);
        assert(head.len() == end + 1);
        assert(split_lines(text) =~= seq![line] + rest);
    }
}

/// No line of a text holds a line feed, and every character of a line is
/// one of the text.
pub proof fn lemma_lines_hold_no_line_feed(text: Seq<char>, from: int)
    requires
        0 <= from <= text.len(),
    ensures
        forall|i: int, j: int|
            0 <= i < lines_from(text, from).len() && 0 <= j < lines_from(text, from)[i].len() ==> {
                &&& (#[trigger] lines_from(text, from)[i][j]) != '\n'
                &&& text.contains(lines_from(text, from)[i][j])
            },
    decreases text.len() - from,
{
    lemma_line_end(text, from);
    let end = line_end(text, from);
    let lines = lines_from(text, from);
    if from <= end < text.len() {
        lemma_lines_hold_no_line_feed(text, end + 1);
        let later = lines_from(text, end + 1);
        let whole = text.subrange(from, end);
        let first = without_carriage_return(whole);
        assert forall|i: int, j: int| 0 <= i < lines.len() && 0 <= j < lines[i].len() implies (
        #[trigger] lines[i][j]) != '\n' && text.contains(lines[i][j]) by {
            if i == 0 {
                assert(lines[0] == first);
                assert(first[j] == whole[j]);
                assert(whole[j] == text[from + j]);
            } else {
                assert(lines[i] == later[i - 1]);
                assert(later[i - 1][j] != '\n');
            }
        }
    } else if from < end {
        assert forall|i: int, j: int| 0 <= i < lines.len() && 0 <= j < lines[i].len() implies (
        #[trigger] lines[i][j]) != '\n' && text.contains(lines[i][j]) by {
            assert(lines[i][j] == text[from + j]);
        }
    }
}

/// The lines of a text without carriage returns come back as they are when
/// they are written and read again.
pub proof fn lemma_lines_of_plain_text(text: Seq<char>)
    requires
        holds_no_carriage_return(text),
    ensures
        forall|i: int|
            0 <= i < split_lines(text).len() ==> is_plain_line(#[trigger] split_lines(text)[i]),
{
    lemma_lines_hold_no_line_feed(text, 0);
    let lines = split_lines(text);
    assert forall|i: int| 0 <= i < lines.len() implies is_plain_line(#[trigger] lines[i]) by {
        let line = lines[i];
        assert forall|j: int| 0 <= j < line.len() implies #[trigger] line[j] != '\n' by {
            assert(lines[i][j] != '\n');
        }
        if line.len() > 0 {
            assert(text.contains(lines[i][line.len() - 1]));
        }
    }
}

/// The lines of `text`.
///
/// Each line is cut out of `text` by counting characters from its start, so
/// the time grows with the length of the text times the number of its lines.
pub fn lines_of(text: &str) -> (lines: Vec<String>)
    ensures
        lines.deep_view() == split_lines(text@),
{
    let cs = to_chars(text);
    let mut lines: Vec<String> = Vec::new();
    let mut from: usize = 0;
    assert(lines.deep_view() + lines_from(text@, 0) =~= split_lines(text@));
    while from < cs.len()
        invariant
            cs@ == text@,
            from <= cs.len(),
            split_lines(text@) == lines.deep_view() + lines_from(text@, from as int),
        decreases cs.len() - from,
    {
        let ghost before = lines.deep_view();
        let mut end: usize = from;
        while end < cs.len() && cs[end] != '\n'
            invariant
                from <= end <= cs.len(),
                line_end(cs@, from as int) == line_end(cs@, end as int),
            decreases cs.len() - end,
        {
            end += 1;
        }
        if end < cs.len() {
            let stop: usize = if end > from && cs[end - 1] == '\r' {
                end - 1
            } else {
                end
            };
            let line = text.substring_char(from, stop).to_owned();
            proof {
                let whole = text@.subrange(from as int, end as int);
                if end > from {
                    assert(whole.last() == cs@[end - 1]);
                }
                assert(line@ =~= without_carriage_return(whole));
            }
            lines.push(line);
            proof {
                assert(lines.deep_view() =~= before.push(line@));
                assert(before + (seq![line@] + lines_from(text@, end + 1)) =~= before.push(line@)
                    + lines_from(text@, end + 1));
            }
            from = end + 1;
        } else {
            let line = text.substring_char(from, end).to_owned();
            lines.push(line);
            proof {
                assert(lines.deep_view() =~= before.push(line@));
                assert(lines_from(text@, end as int) =~= Seq::<Seq<char>>::empty());
                assert(before + seq![line@] =~= before.push(line@) + lines_from(text@, end as int));
            }
            from = end;
        }
    }
    assert(lines.deep_view() + lines_from(text@, from as int) =~= lines.deep_view());
    lines
}

/// The text that holds `lines`, each followed by a line feed.
pub fn text_of(lines: &Vec<String>) -> (text: String)
    ensures
        text@ == join_lines(lines.deep_view()),
{
    let ghost all = lines.deep_view();
    let mut text = String::new();
    let mut i: usize = 0;
    assert(text@ =~= join_lines(all.take(0)));
    while i < lines.len()
        invariant
            i <= lines.len(),
            all == lines.deep_view(),
            text@ == join_lines(all.take(i as int)),
        decreases lines.len() - i,
    {
        proof {
            assert(all.take(i + 1).drop_last() =~= all.take(i as int));
            assert(all.take(i + 1).last() == lines[i as int]@);
        }
        text.append(lines[i].as_str());
        text.append(LINE_END);
        i += 1;
    }
    assert(all.take(lines.len() as int) =~= all);
    text
}

} // verus!
