//! The export list: the bound names in ascending order, each once, and the
//! `__all__` block that lists them.

use vstd::prelude::*;
use crate::lines::{is_plain_line, join_lines, text_of};
use crate::order::{
    lemma_str_lt_asymmetric, lemma_str_lt_irreflexive, lemma_str_lt_total,
    lemma_str_lt_transitive, str_lt, string_lt,
};
use crate::resolve::PyImports;
use crate::segment::{
    is_block_interior, is_export_opener, is_main_guard, BLOCK_INDENT, EXPORT_OPENER,
    MAIN_GUARD_DOUBLE, MAIN_GUARD_SINGLE,
};
use crate::text::{
    holds_no_space, is_blank, is_space, lemma_skip_spaces, same_text, skip_spaces, trim_start,
};

verus! {

/// What stands before a name in its line of the export block.
pub const ENTRY_HEAD: &'static str = "    \"";

/// What stands behind a name in its line of the export block.
pub const ENTRY_TAIL: &'static str = "\",";

/// The line that closes the export block.
pub const BLOCK_CLOSER: &'static str = "]";

/// The names that a file exports.
#[derive(Debug)]
pub struct AllExports {
    /// The names, in any order and possibly more than once.
    pub exports: Vec<String>,
}

/// Whether every name of `names` comes before all that follow it. Such a
/// sequence holds no name twice.
pub open spec fn is_ascending(names: Seq<Seq<char>>) -> bool {
    forall|i: int, j: int|
        0 <= i < j < names.len() ==> str_lt(#[trigger] names[i], #[trigger] names[j])
}

/// Whether `a` and `b` hold the same names, counted once each.
pub open spec fn same_names(a: Seq<Seq<char>>, b: Seq<Seq<char>>) -> bool {
    forall|x: Seq<char>| a.contains(x) <==> b.contains(x)
}

/// Whether `ordered` is `names` put in export order: ascending, with the same
/// names.
pub open spec fn is_export_order(ordered: Seq<Seq<char>>, names: Seq<Seq<char>>) -> bool {
    is_ascending(ordered) && same_names(ordered, names)
}

/// The names of `names` in ascending order, each once.
pub open spec fn export_order(names: Seq<Seq<char>>) -> Seq<Seq<char>> {
    choose|ordered: Seq<Seq<char>>| is_export_order(ordered, names)
}

/// The line of the export block that lists `name`.
pub open spec fn entry_line(name: Seq<char>) -> Seq<char> {
    ENTRY_HEAD@ + name + ENTRY_TAIL@
}

/// The lines of the export block that lists `names` as they stand: the
/// opening line, one line for each name, and the closing line.
pub open spec fn export_block_lines(names: Seq<Seq<char>>) -> Seq<Seq<char>> {
    seq![EXPORT_OPENER@] + names.map_values(|name: Seq<char>| entry_line(name)) + seq![
        BLOCK_CLOSER@,
    ]
}

/// The export block that lists `names` as they stand, as a text.
pub open spec fn export_block(names: Seq<Seq<char>>) -> Seq<char> {
    join_lines(export_block_lines(names))
}

/// The number of names at the start of `ordered` that come before `name`,
/// for an ascending `ordered`.
pub open spec fn rank(ordered: Seq<Seq<char>>, name: Seq<char>) -> int
    decreases ordered.len(),
{
    if ordered.len() == 0 {
        0
    } else if str_lt(ordered.last(), name) {
        ordered.len() as int
    } else {
        rank(ordered.drop_last(), name)
    }
}

/// `ordered` with `name` put in at its rank, unless it stands there already.
pub open spec fn with_name(ordered: Seq<Seq<char>>, name: Seq<char>) -> Seq<Seq<char>> {
    let at = rank(ordered, name);
    if at < ordered.len() && ordered[at] == name {
        ordered
    } else {
        ordered.insert(at, name)
    }
}

/// In an ascending sequence the names before the rank of `name` come before
/// it, and those from the rank on do not.
pub proof fn lemma_rank(ordered: Seq<Seq<char>>, name: Seq<char>)
    requires
        is_ascending(ordered),
    ensures
        0 <= rank(ordered, name) <= ordered.len(),
        forall|i: int| 0 <= i < rank(ordered, name) ==> str_lt(#[trigger] ordered[i], name),
        forall|i: int|
            rank(ordered, name) <= i < ordered.len() ==> !str_lt(#[trigger] ordered[i], name),
    decreases ordered.len(),
{
    if ordered.len() > 0 {
        let last = ordered.last();
        let init = ordered.drop_last();
        if str_lt(last, name) {
            assert forall|i: int| 0 <= i < ordered.len() implies str_lt(
                #[trigger] ordered[i],
                name,
            ) by {
                if i < ordered.len() - 1 {
                    lemma_str_lt_transitive(ordered[i], last, name);
                }
            }
        } else {
            assert(is_ascending(init)) by {
                assert forall|i: int, j: int| 0 <= i < j < init.len() implies str_lt(
                    #[trigger] init[i],
                    #[trigger] init[j],
                ) by {
                    assert(init[i] == ordered[i] && init[j] == ordered[j]);
                }
            }
            lemma_rank(init, name);
            assert forall|i: int| 0 <= i < rank(ordered, name) implies str_lt(
                #[trigger] ordered[i],
                name,
            ) by {
                assert(ordered[i] == init[i]);
            }
            assert forall|i: int| rank(ordered, name) <= i < ordered.len() implies !str_lt(
                #[trigger] ordered[i],
                name,
            ) by {
                if i < init.len() {
                    assert(ordered[i] == init[i]);
                }
            }
        }
    }
}

/// Putting a name into an ascending sequence at a position with only
/// smaller names before it and only greater names from it on keeps the
/// sequence ascending, and adds that name to those it holds.
pub proof fn lemma_insert_keeps_order(
    ordered: Seq<Seq<char>>,
    names: Seq<Seq<char>>,
    name: Seq<char>,
    at: int,
)
    requires
        is_export_order(ordered, names),
        0 <= at <= ordered.len(),
        forall|i: int| 0 <= i < at ==> str_lt(#[trigger] ordered[i], name),
        forall|i: int| at <= i < ordered.len() ==> str_lt(name, #[trigger] ordered[i]),
    ensures
        is_export_order(ordered.insert(at, name), names.push(name)),
{
    let grown = ordered.insert(at, name);
    assert forall|i: int, j: int| 0 <= i < j < grown.len() implies str_lt(
        #[trigger] grown[i],
        #[trigger] grown[j],
    ) by {
        if j < at {
            assert(grown[i] == ordered[i] && grown[j] == ordered[j]);
        } else if j == at {
            assert(grown[i] == ordered[i]);
        } else if i < at {
            assert(grown[i] == ordered[i] && grown[j] == ordered[j - 1]);
        } else if i == at {
            assert(grown[j] == ordered[j - 1]);
        } else {
            assert(grown[i] == ordered[i - 1] && grown[j] == ordered[j - 1]);
        }
    }
    assert forall|x: Seq<char>| grown.contains(x) <==> names.push(name).contains(x) by {
        if grown.contains(x) {
            let i = choose|i: int| 0 <= i < grown.len() && grown[i] == x;
            if i == at {
                assert(names.push(name)[names.len() as int] == x);
            } else {
                let k = if i < at { i } else { i - 1 };
                assert(ordered[k] == x);
                assert(ordered.contains(x));
                let m = choose|m: int| 0 <= m < names.len() && names[m] == x;
                assert(names.push(name)[m] == x);
            }
        }
        if names.push(name).contains(x) {
            let m = choose|m: int| 0 <= m < names.push(name).len() && names.push(name)[m] == x;
            if m == names.len() {
                assert(grown[at] == x);
            } else {
                assert(names[m] == x);
                assert(names.contains(x));
                let k = choose|k: int| 0 <= k < ordered.len() && ordered[k] == x;
                let i = if k < at { k } else { k + 1 };
                assert(grown[i] == x);
            }
        }
    }
}

/// A name that an ascending sequence holds already adds nothing to it.
pub proof fn lemma_known_name_keeps_order(
    ordered: Seq<Seq<char>>,
    names: Seq<Seq<char>>,
    name: Seq<char>,
)
    requires
        is_export_order(ordered, names),
        ordered.contains(name),
    ensures
        is_export_order(ordered, names.push(name)),
{
    assert forall|x: Seq<char>| ordered.contains(x) <==> names.push(name).contains(x) by {
        if ordered.contains(x) {
            let m = choose|m: int| 0 <= m < names.len() && names[m] == x;
            assert(names.push(name)[m] == x);
        }
        if names.push(name).contains(x) {
            let m = choose|m: int| 0 <= m < names.push(name).len() && names.push(name)[m] == x;
            if m < names.len() {
                assert(names[m] == x);
                assert(names.contains(x));
            }
        }
    }
}

/// [`with_name`] puts one more name into export order.
pub proof fn lemma_with_name(ordered: Seq<Seq<char>>, names: Seq<Seq<char>>, name: Seq<char>)
    requires
        is_export_order(ordered, names),
    ensures
        is_export_order(with_name(ordered, name), names.push(name)),
{
    lemma_rank(ordered, name);
    let at = rank(ordered, name);
    if at < ordered.len() && ordered[at] == name {
        lemma_known_name_keeps_order(ordered, names, name);
    } else {
        assert forall|i: int| at <= i < ordered.len() implies str_lt(
            name,
            #[trigger] ordered[i],
        ) by {
            lemma_str_lt_total(ordered[at], name);
            if i > at {
                lemma_str_lt_transitive(name, ordered[at], ordered[i]);
            }
        }
        lemma_insert_keeps_order(ordered, names, name, at);
    }
}

/// Two ascending sequences that hold the same names are equal.
pub proof fn lemma_export_order_unique(a: Seq<Seq<char>>, b: Seq<Seq<char>>)
    requires
        is_ascending(a),
        is_ascending(b),
        same_names(a, b),
    ensures
        a == b,
    decreases a.len(),
{
    if a.len() == 0 {
        if b.len() > 0 {
            assert(b.contains(b[0]));
        }
        assert(a =~= b);
    } else {
        let x = a.last();
        assert(a.contains(x));
        assert(b.contains(x));
        let y = b.last();
        assert(b.contains(y));
        assert(a.contains(y));
        let i = choose|i: int| 0 <= i < a.len() && a[i] == y;
        let j = choose|j: int| 0 <= j < b.len() && b[j] == x;
        lemma_str_lt_asymmetric(x, y);
        lemma_str_lt_irreflexive(x);
        assert(x == y) by {
            if i < a.len() - 1 && j < b.len() - 1 {
                assert(str_lt(a[i], a[a.len() - 1]));
                assert(str_lt(b[j], b[b.len() - 1]));
            }
        }
        let a0 = a.drop_last();
        let b0 = b.drop_last();
        assert(is_ascending(a0)) by {
            assert forall|m: int, n: int| 0 <= m < n < a0.len() implies str_lt(
                #[trigger] a0[m],
                #[trigger] a0[n],
            ) by {
                assert(a0[m] == a[m] && a0[n] == a[n]);
            }
        }
        assert(is_ascending(b0)) by {
            assert forall|m: int, n: int| 0 <= m < n < b0.len() implies str_lt(
                #[trigger] b0[m],
                #[trigger] b0[n],
            ) by {
                assert(b0[m] == b[m] && b0[n] == b[n]);
            }
        }
        assert forall|z: Seq<char>| a0.contains(z) <==> b0.contains(z) by {
            lemma_str_lt_irreflexive(z);
            if a0.contains(z) {
                let m = choose|m: int| 0 <= m < a0.len() && a0[m] == z;
                assert(a[m] == z);
                assert(str_lt(a[m], a[a.len() - 1]));
                assert(a.contains(z));
                let n = choose|n: int| 0 <= n < b.len() && b[n] == z;
                assert(n < b.len() - 1);
                assert(b0[n] == z);
            }
            if b0.contains(z) {
                let n = choose|n: int| 0 <= n < b0.len() && b0[n] == z;
                assert(b[n] == z);
                assert(str_lt(b[n], b[b.len() - 1]));
                assert(b.contains(z));
                let m = choose|m: int| 0 <= m < a.len() && a[m] == z;
                assert(m < a.len() - 1);
                assert(a0[m] == z);
            }
        }
        lemma_export_order_unique(a0, b0);
        assert(a =~= a0.push(x));
        assert(b =~= b0.push(y));
    }
}

/// Every sequence of names has an export order: [`export_order`] is
/// ascending, so it holds no name twice, and it holds the names that were
/// given, and no others.
pub proof fn lemma_export_order(names: Seq<Seq<char>>)
    ensures
        is_export_order(export_order(names), names),
        export_order(names).no_duplicates(),
    decreases names.len(),
{
    if names.len() == 0 {
        assert(is_export_order(Seq::<Seq<char>>::empty(), names));
    } else {
        let init = names.drop_last();
        lemma_export_order(init);
        lemma_with_name(export_order(init), init, names.last());
        assert(init.push(names.last()) =~= names);
        assert(is_export_order(with_name(export_order(init), names.last()), names));
    }
    let ordered = export_order(names);
    assert forall|i: int, j: int| 0 <= i < ordered.len() && 0 <= j < ordered.len() && i
        != j implies ordered[i] != ordered[j] by {
        lemma_str_lt_irreflexive(ordered[i]);
        if i < j {
            assert(str_lt(ordered[i], ordered[j]));
        } else {
            assert(str_lt(ordered[j], ordered[i]));
        }
    }
}

/// An ascending sequence that holds the names of `names` is their export
/// order.
pub proof fn lemma_export_order_is(ordered: Seq<Seq<char>>, names: Seq<Seq<char>>)
    requires
        is_export_order(ordered, names),
    ensures
        ordered == export_order(names),
{
    lemma_export_order_unique(ordered, export_order(names));
}

/// The export order of names that are in export order already is that
/// order: putting names in order twice changes nothing.
pub proof fn lemma_export_order_idempotent(names: Seq<Seq<char>>)
    ensures
        export_order(export_order(names)) == export_order(names),
{
    lemma_export_order(names);
    let ordered = export_order(names);
    assert(is_export_order(ordered, ordered));
    lemma_export_order_is(ordered, ordered);
}

/// The export order depends on which names are given, not on their order or
/// on how often each is given.
pub proof fn lemma_export_order_of_same_names(a: Seq<Seq<char>>, b: Seq<Seq<char>>)
    requires
        same_names(a, b),
    ensures
        export_order(a) == export_order(b),
{
    lemma_export_order(a);
    lemma_export_order(b);
    lemma_export_order_unique(export_order(a), export_order(b));
}

/// The names of `names` in ascending order, each once.
pub fn sorted_names(names: Vec<String>) -> (ordered: Vec<String>)
    ensures
        ordered.deep_view() == export_order(names.deep_view()),
        is_export_order(ordered.deep_view(), names.deep_view()),
{
    let ghost all = names.deep_view();
    let mut ordered: Vec<String> = Vec::new();
    assert(is_export_order(ordered.deep_view(), all.take(0)));
    for name in it: names
        invariant
            it.seq().len() == all.len(),
            forall|j: int| 0 <= j < all.len() ==> (#[trigger] it.seq()[j])@ == all[j],
            is_export_order(ordered.deep_view(), all.take(it.index() as int)),
    {
        let ghost i = it.index() as int;
        let ghost before = ordered.deep_view();
        let mut at: usize = 0;
        while at < ordered.len() && string_lt(ordered[at].as_str(), name.as_str())
            invariant
                at <= ordered.len(),
                ordered.deep_view() == before,
                forall|k: int| 0 <= k < at ==> str_lt(#[trigger] before[k], name@),
            decreases ordered.len() - at,
        {
            assert(before[at as int] == ordered[at as int]@);
            at += 1;
        }
        proof {
            assert(all.take(i + 1) =~= all.take(i).push(name@));
        }
        if at < ordered.len() && same_text(ordered[at].as_str(), name.as_str()) {
            proof {
                assert(before[at as int] == name@);
                lemma_known_name_keeps_order(before, all.take(i), name@);
            }
        } else {
            proof {
                assert forall|k: int| at <= k < before.len() implies str_lt(
                    name@,
                    #[trigger] before[k],
                ) by {
                    assert(before[at as int] == ordered[at as int]@);
                    lemma_str_lt_total(before[at as int], name@);
                    if k > at {
                        lemma_str_lt_transitive(name@, before[at as int], before[k]);
                    }
                }
                lemma_insert_keeps_order(before, all.take(i), name@, at as int);
            }
            ordered.insert(at, name);
            assert(ordered.deep_view() =~= before.insert(at as int, name@));
        }
    }
    proof {
        assert(all.take(all.len() as int) =~= all);
        lemma_export_order_is(ordered.deep_view(), all);
    }
    ordered
}

/// How the segmenter reads the first and the last line of an export block:
/// the opening line opens an export list, and the closing line ends an open
/// block. Neither is a main-block guard.
pub proof fn lemma_block_frame_as_read()
    ensures
        is_export_opener(EXPORT_OPENER@),
        !is_main_guard(EXPORT_OPENER@),
        !is_block_interior(BLOCK_CLOSER@),
        !is_main_guard(BLOCK_CLOSER@),
        !is_export_opener(BLOCK_CLOSER@),
{
    reveal_strlit("if __name__ == '__main__':");
    reveal_strlit("if __name__ == \"__main__\":");
    reveal_strlit("__all__ = [");
    reveal_strlit("    ");
    reveal_strlit("]");
    let opener = EXPORT_OPENER@;
    let closer = BLOCK_CLOSER@;
    lemma_skip_spaces(opener, 0);
    lemma_skip_spaces(closer, 0);
    assert(skip_spaces(opener, 0) == 0) by {
        assert(!is_space(opener[0]));
    }
    assert(trim_start(opener) =~= opener);
    assert(skip_spaces(closer, 0) == 0) by {
        assert(!is_space(closer[0]));
    }
    assert(trim_start(closer) =~= closer);
    assert(!is_blank(closer)) by {
        assert(!is_space(closer[0]));
    }
}

/// How the segmenter reads an entry of an export block: the line belongs to
/// an open block, and neither opens an export list nor is a main-block
/// guard, whatever the name.
pub proof fn lemma_entry_line_as_read(name: Seq<char>)
    ensures
        is_block_interior(entry_line(name)),
        !is_main_guard(entry_line(name)),
        !is_export_opener(entry_line(name)),
{
    reveal_strlit("if __name__ == '__main__':");
    reveal_strlit("if __name__ == \"__main__\":");
    reveal_strlit("__all__ = [");
    reveal_strlit("    ");
    reveal_strlit("    \"");
    reveal_strlit("\",");
    let entry = entry_line(name);
    lemma_skip_spaces(entry, 0);
    assert(skip_spaces(entry, 0) == 4) by {
        assert(is_space(entry[0]) && is_space(entry[1]) && is_space(entry[2]) && is_space(
            entry[3],
        ));
        assert(!is_space(entry[4]));
    }
    assert(trim_start(entry)[0] == '"');
    assert(MAIN_GUARD_SINGLE@[0] == 'i' && MAIN_GUARD_DOUBLE@[0] == 'i');
    assert(!is_export_opener(entry)) by {
        let opener = EXPORT_OPENER@;
        if opener.is_prefix_of(trim_start(entry)) {
            assert(opener[0] == trim_start(entry).subrange(0, opener.len() as int)[0]);
        }
    }
    assert(BLOCK_INDENT@ =~= entry.subrange(0, 4));
}

/// The lines of an export block come back as they are when they are written
/// and read again, if no name holds whitespace.
pub proof fn lemma_export_block_lines_are_plain(names: Seq<Seq<char>>)
    requires
        forall|i: int| 0 <= i < names.len() ==> holds_no_space(#[trigger] names[i]),
    ensures
        forall|i: int|
            0 <= i < export_block_lines(names).len() ==> is_plain_line(
                #[trigger] export_block_lines(names)[i],
            ),
{
    reveal_strlit("__all__ = [");
    reveal_strlit("    \"");
    reveal_strlit("\",");
    reveal_strlit("]");
    let lines = export_block_lines(names);
    assert forall|i: int| 0 <= i < lines.len() implies is_plain_line(#[trigger] lines[i]) by {
        if i == 0 {
            assert(lines[i] == EXPORT_OPENER@);
        } else if i <= names.len() {
            let name = names[i - 1];
            let line = entry_line(name);
            assert(lines[i] == line);
            assert(holds_no_space(name));
            assert forall|j: int| 0 <= j < line.len() implies #[trigger] line[j] != '\n' by {
                if 5 <= j < 5 + name.len() {
                    assert(line[j] == name[j - 5]);
                    assert(!is_space(name[j - 5]));
                }
            }
            assert(line.last() == ',');
        } else {
            assert(lines[i] == BLOCK_CLOSER@);
        }
    }
}

/// The lines of the export block that lists `names` as they stand.
pub fn export_lines(names: &Vec<String>) -> (lines: Vec<String>)
    ensures
        lines.deep_view() == export_block_lines(names.deep_view()),
{
    let ghost all = names.deep_view();
    let ghost entries = all.map_values(|name: Seq<char>| entry_line(name));
    let mut lines: Vec<String> = Vec::new();
    lines.push(String::from_str(EXPORT_OPENER));
    let mut i: usize = 0;
    assert(lines.deep_view() =~= seq![EXPORT_OPENER@] + entries.take(0));
    while i < names.len()
        invariant
            i <= names.len(),
            all == names.deep_view(),
            entries == all.map_values(|name: Seq<char>| entry_line(name)),
            lines.deep_view() == seq![EXPORT_OPENER@] + entries.take(i as int),
        decreases names.len() - i,
    {
        let ghost before = lines.deep_view();
        let mut line = String::from_str(ENTRY_HEAD);
        line.append(names[i].as_str());
        line.append(ENTRY_TAIL);
        lines.push(line);
        proof {
            assert(entries[i as int] == entry_line(names[i as int]@));
            assert(lines.deep_view() =~= before.push(entries[i as int]));
            assert(lines.deep_view() =~= seq![EXPORT_OPENER@] + entries.take(i + 1));
        }
        i += 1;
    }
    let ghost before = lines.deep_view();
    lines.push(String::from_str(BLOCK_CLOSER));
    proof {
        assert(entries.take(names.len() as int) =~= entries);
        assert(lines.deep_view() =~= before.push(BLOCK_CLOSER@));
        assert(lines.deep_view() =~= export_block_lines(all));
    }
    lines
}

/// The export block that lists `names` as they stand, as a text.
pub fn render_export_block(names: &Vec<String>) -> (block: String)
    ensures
        block@ == export_block(names.deep_view()),
{
    let lines = export_lines(names);
    text_of(&lines)
}

impl AllExports {
    /// The exported names as sequences of characters.
    pub open spec fn names(&self) -> Seq<Seq<char>> {
        self.exports.deep_view()
    }

    /// An export list of the names `exports`.
    pub fn new(exports: Vec<String>) -> (r: Self)
        ensures
            r.exports == exports,
    {
        Self { exports }
    }

    /// The export list of a file with the imports `imports`: every bound
    /// name is exported.
    pub fn from_imports(imports: PyImports) -> (r: Self)
        ensures
            r.exports == imports.attributes,
    {
        Self::new(imports.attributes)
    }

    /// The export block of this list: the names in ascending order, each
    /// once, one to a line.
    pub fn into_string(self) -> (block: String)
        ensures
            block@ == export_block(export_order(self.names())),
            is_export_order(export_order(self.names()), self.names()),
    {
        let ordered = sorted_names(self.exports);
        render_export_block(&ordered)
    }
}

} // verus!
