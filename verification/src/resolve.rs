//! The resolver: which names an import statement binds.
//!
//! A statement is read as whitespace-separated tokens. `import a.b.c` binds
//! `c`, `import a.b as x` binds `x`, and `from m import n, k as y` binds `n`
//! and `y`; braces and trailing commas only structure a list.

use vstd::prelude::*;
use crate::text::{
    holds_no_space, is_space, lemma_tokens_hold_no_space, same_chars, split_tokens, to_chars,
    tokens,
};

verus! {

/// The keyword of a plain import.
pub const KEYWORD_IMPORT: &'static str = "import";

/// The keyword of an import from a module.
pub const KEYWORD_FROM: &'static str = "from";

/// The keyword before an alias.
pub const KEYWORD_AS: &'static str = "as";

/// The token that opens a list of names.
pub const LIST_OPEN: &'static str = "{";

/// The token that closes a list of names.
pub const LIST_CLOSE: &'static str = "}";

/// A statement that lacks a token the resolver needs.
#[derive(Clone, Copy, Debug, PartialEq, Eq, Structural)]
pub struct MalformedImport {
    /// The position of the statement among those that were handed in.
    pub position: usize,
}

/// The names that the import statements of a file bind.
#[derive(Debug)]
pub struct PyImports {
    /// The bound names, in the order of the statements.
    pub attributes: Vec<String>,
}

/// The position behind the last dot of `module`; zero when it holds none.
pub open spec fn leaf_start(module: Seq<char>) -> int
    decreases module.len(),
{
    if module.len() == 0 {
        0
    } else if module.last() == '.' {
        module.len() as int
    } else {
        leaf_start(module.drop_last())
    }
}

/// The last dot-separated segment of `module`.
pub open spec fn leaf_name(module: Seq<char>) -> Seq<char> {
    module.skip(leaf_start(module))
}

/// The name that `import module rest..` binds: the last token where more
/// than one follows the module, which is then read as an alias, and the leaf
/// of the module otherwise.
pub open spec fn plain_import_name(module: Seq<char>, rest: Seq<Seq<char>>) -> Seq<char> {
    if rest.len() > 1 {
        rest.last()
    } else {
        leaf_name(module)
    }
}

/// `part` without one trailing comma.
pub open spec fn without_comma(part: Seq<char>) -> Seq<char> {
    if part.len() > 0 && part.last() == ',' {
        part.drop_last()
    } else {
        part
    }
}

/// The names that the tokens behind `from m import` bind. A brace token is
/// skipped, `as` takes back the name before it, and any other token is a
/// name, without its trailing comma.
pub open spec fn listed_names(parts: Seq<Seq<char>>) -> Seq<Seq<char>>
    decreases parts.len(),
{
    if parts.len() == 0 {
        Seq::empty()
    } else {
        let before = listed_names(parts.drop_last());
        let part = parts.last();
        if part == LIST_OPEN@ || part == LIST_CLOSE@ {
            before
        } else if part == KEYWORD_AS@ {
            if before.len() > 0 {
                before.drop_last()
            } else {
                before
            }
        } else {
            before.push(without_comma(part))
        }
    }
}

/// Whether a statement with these tokens lacks a token that the resolver
/// needs: the keyword, the module of an `import`, or the module or the
/// `import` of a `from`.
pub open spec fn is_malformed(toks: Seq<Seq<char>>) -> bool {
    if toks.len() == 0 {
        true
    } else if toks[0] == KEYWORD_IMPORT@ {
        toks.len() < 2
    } else if toks[0] == KEYWORD_FROM@ {
        toks.len() < 3
    } else {
        false
    }
}

/// The names that a statement with these tokens binds. A statement that
/// starts with neither keyword binds none.
pub open spec fn names_of_tokens(toks: Seq<Seq<char>>) -> Seq<Seq<char>> {
    if toks.len() == 0 {
        Seq::empty()
    } else if toks[0] == KEYWORD_IMPORT@ {
        if toks.len() >= 2 {
            seq![plain_import_name(toks[1], toks.skip(2))]
        } else {
            Seq::empty()
        }
    } else if toks[0] == KEYWORD_FROM@ {
        if toks.len() >= 3 {
            listed_names(toks.skip(3))
        } else {
            Seq::empty()
        }
    } else {
        Seq::empty()
    }
}

/// Whether `statement` is malformed.
pub open spec fn statement_is_malformed(statement: Seq<char>) -> bool {
    is_malformed(tokens(statement))
}

/// The names that `statement` binds.
pub open spec fn bound_names(statement: Seq<char>) -> Seq<Seq<char>> {
    names_of_tokens(tokens(statement))
}

/// Whether none of `statements` is malformed.
pub open spec fn all_well_formed(statements: Seq<Seq<char>>) -> bool {
    forall|i: int| 0 <= i < statements.len() ==> !statement_is_malformed(#[trigger] statements[i])
}

/// Whether the statement at `position` is the first of `statements` that is
/// malformed.
pub open spec fn is_first_malformed(statements: Seq<Seq<char>>, position: int) -> bool {
    &&& 0 <= position < statements.len()
    &&& statement_is_malformed(statements[position])
    &&& all_well_formed(statements.take(position))
}

/// The names that `statements` bind, statement by statement.
pub open spec fn all_bound_names(statements: Seq<Seq<char>>) -> Seq<Seq<char>>
    decreases statements.len(),
{
    if statements.len() == 0 {
        Seq::empty()
    } else {
        all_bound_names(statements.drop_last()) + bound_names(statements.last())
    }
}

/// The position that [`leaf_start`] returns lies in range, has a dot before
/// it unless it is zero, and no dot behind it.
pub proof fn lemma_leaf_start(module: Seq<char>)
    ensures
        0 <= leaf_start(module) <= module.len(),
        leaf_start(module) > 0 ==> module[leaf_start(module) - 1] == '.',
        forall|i: int| leaf_start(module) <= i < module.len() ==> #[trigger] module[i] != '.',
    decreases module.len(),
{
    if module.len() > 0 && module.last() != '.' {
        let init = module.drop_last();
        lemma_leaf_start(init);
        assert forall|i: int| leaf_start(module) <= i < module.len() implies #[trigger] module[i]
            != '.' by {
            if i < init.len() {
                assert(module[i] == init[i]);
            }
        }
    }
}

/// The names that tokens without whitespace list hold no whitespace.
pub proof fn lemma_listed_names_hold_no_space(parts: Seq<Seq<char>>)
    requires
        forall|i: int| 0 <= i < parts.len() ==> holds_no_space(#[trigger] parts[i]),
    ensures
        forall|i: int|
            0 <= i < listed_names(parts).len() ==> holds_no_space(
                #[trigger] listed_names(parts)[i],
            ),
    decreases parts.len(),
{
    if parts.len() > 0 {
        let init = parts.drop_last();
        assert forall|i: int| 0 <= i < init.len() implies holds_no_space(#[trigger] init[i]) by {
            assert(init[i] == parts[i]);
        }
        lemma_listed_names_hold_no_space(init);
        let before = listed_names(init);
        let names = listed_names(parts);
        let part = parts.last();
        assert(holds_no_space(parts[parts.len() - 1]));
        assert forall|i: int| 0 <= i < names.len() implies holds_no_space(#[trigger] names[i]) by {
            if i < before.len() {
                assert(names[i] == before[i]);
            } else {
                let name = without_comma(part);
                assert(names[i] == name);
                assert forall|j: int| 0 <= j < name.len() implies !is_space(#[trigger] name[j]) by {
                    assert(name[j] == part[j]);
                }
            }
        }
    }
}

/// A bound name holds no whitespace: no statement binds a name that would
/// not stand in one line.
pub proof fn lemma_bound_names_hold_no_space(statement: Seq<char>)
    ensures
        forall|i: int|
            0 <= i < bound_names(statement).len() ==> holds_no_space(
                #[trigger] bound_names(statement)[i],
            ),
{
    let toks = tokens(statement);
    lemma_tokens_hold_no_space(statement, 0);
    let names = bound_names(statement);
    if toks.len() >= 2 && toks[0] == KEYWORD_IMPORT@ {
        let rest = toks.skip(2);
        let name = plain_import_name(toks[1], rest);
        assert(names[0] == name);
        if rest.len() > 1 {
            assert(rest.last() == toks[toks.len() - 1]);
        } else {
            lemma_leaf_start(toks[1]);
            assert forall|j: int| 0 <= j < name.len() implies !is_space(#[trigger] name[j]) by {
                assert(name[j] == toks[1][leaf_start(toks[1]) + j]);
            }
        }
    } else if toks.len() >= 3 && toks[0] == KEYWORD_FROM@ {
        let parts = toks.skip(3);
        assert forall|i: int| 0 <= i < parts.len() implies holds_no_space(#[trigger] parts[i]) by {
            assert(parts[i] == toks[i + 3]);
        }
        lemma_listed_names_hold_no_space(parts);
    }
}

/// Statements are resolved one by one: what a statement binds does not
/// depend on the statements around it.
pub proof fn lemma_all_bound_names_concat(a: Seq<Seq<char>>, b: Seq<Seq<char>>)
    ensures
        all_bound_names(a + b) == all_bound_names(a) + all_bound_names(b),
    decreases b.len(),
{
    if b.len() == 0 {
        assert(a + b =~= a);
        assert(all_bound_names(a) + all_bound_names(b) =~= all_bound_names(a));
    } else {
        lemma_all_bound_names_concat(a, b.drop_last());
        assert((a + b).drop_last() =~= a + b.drop_last());
        assert((a + b).last() == b.last());
        assert(all_bound_names(a + b) =~= all_bound_names(a) + all_bound_names(b));
    }
}

/// No name that statements bind holds whitespace.
pub proof fn lemma_all_bound_names_hold_no_space(statements: Seq<Seq<char>>)
    ensures
        forall|i: int|
            0 <= i < all_bound_names(statements).len() ==> holds_no_space(
                #[trigger] all_bound_names(statements)[i],
            ),
    decreases statements.len(),
{
    if statements.len() > 0 {
        lemma_all_bound_names_hold_no_space(statements.drop_last());
        lemma_bound_names_hold_no_space(statements.last());
        let before = all_bound_names(statements.drop_last());
        let added = bound_names(statements.last());
        let names = all_bound_names(statements);
        assert forall|i: int| 0 <= i < names.len() implies holds_no_space(#[trigger] names[i]) by {
            if i < before.len() {
                assert(names[i] == before[i]);
            } else {
                assert(names[i] == added[i - before.len()]);
            }
        }
    }
}

/// The last dot-separated segment of `module`.
fn leaf_of(module: &str) -> (leaf: String)
    ensures
        leaf@ == leaf_name(module@),
{
    let cs = to_chars(module);
    let mut k: usize = cs.len();
    assert(cs@.take(k as int) =~= cs@);
    while k > 0 && cs[k - 1] != '.'
        invariant
            k <= cs.len(),
            cs@ == module@,
            leaf_start(cs@) == leaf_start(cs@.take(k as int)),
        decreases k,
    {
        proof {
            assert(cs@.take(k as int).drop_last() =~= cs@.take(k - 1));
        }
        k -= 1;
    }
    proof {
        if k > 0 {
            assert(cs@.take(k as int).last() == '.');
        }
        assert(leaf_start(cs@) == k);
    }
    module.substring_char(k, cs.len()).to_owned()
}

/// `part` without one trailing comma.
fn name_in_list(part: &String) -> (name: String)
    ensures
        name@ == without_comma(part@),
{
    let cs = to_chars(part.as_str());
    if cs.len() > 0 && cs[cs.len() - 1] == ',' {
        part.as_str().substring_char(0, cs.len() - 1).to_owned()
    } else {
        part.clone()
    }
}

/// The names that the tokens behind the first three of `toks` bind.
fn names_in_list(toks: &Vec<String>) -> (names: Vec<String>)
    requires
        toks.len() >= 3,
    ensures
        names.deep_view() == listed_names(toks.deep_view().skip(3)),
{
    let open = to_chars(LIST_OPEN);
    let close = to_chars(LIST_CLOSE);
    let alias = to_chars(KEYWORD_AS);
    let ghost parts = toks.deep_view().skip(3);
    let mut names: Vec<String> = Vec::new();
    let mut i: usize = 3;
    while i < toks.len()
        invariant
            3 <= i <= toks.len(),
            parts == toks.deep_view().skip(3),
            open@ == LIST_OPEN@,
            close@ == LIST_CLOSE@,
            alias@ == KEYWORD_AS@,
            names.deep_view() == listed_names(parts.take(i - 3)),
        decreases toks.len() - i,
    {
        let ghost before = names.deep_view();
        proof {
            assert(parts.take(i - 2).drop_last() =~= parts.take(i - 3));
            assert(parts.take(i - 2).last() == toks[i as int]@);
        }
        let cs = to_chars(toks[i].as_str());
        let is_brace: bool = same_chars(&cs, &open) || same_chars(&cs, &close);
        if !is_brace {
            if same_chars(&cs, &alias) {
                names.pop();
                assert(names.deep_view() =~= if before.len() > 0 {
                    before.drop_last()
                } else {
                    before
                });
            } else {
                let name = name_in_list(&toks[i]);
                names.push(name);
                assert(names.deep_view() =~= before.push(without_comma(toks[i as int]@)));
            }
        }
        i += 1;
    }
    assert(parts.take(toks.len() - 3) =~= parts);
    names
}

/// The names that `statement` binds, or `None` where it is malformed.
pub fn resolve_statement(statement: &str) -> (r: Option<Vec<String>>)
    ensures
        r is None <==> statement_is_malformed(statement@),
        r matches Some(names) ==> names.deep_view() == bound_names(statement@),
{
    let toks = split_tokens(statement);
    if toks.len() == 0 {
        return None;
    }
    let ghost t = toks.deep_view();
    let keyword = to_chars(toks[0].as_str());
    let plain = to_chars(KEYWORD_IMPORT);
    let from = to_chars(KEYWORD_FROM);
    assert(t[0] == keyword@);
    if same_chars(&keyword, &plain) {
        if toks.len() < 2 {
            return None;
        }
        let name = if toks.len() > 3 {
            toks[toks.len() - 1].clone()
        } else {
            leaf_of(toks[1].as_str())
        };
        proof {
            assert(t.skip(2).len() == toks.len() - 2);
            if toks.len() > 3 {
                assert(t.skip(2).last() == toks[toks.len() - 1]@);
            }
            assert(t[1] == toks[1]@);
        }
        let mut names: Vec<String> = Vec::new();
        names.push(name);
        assert(names.deep_view() =~= seq![plain_import_name(t[1], t.skip(2))]);
        Some(names)
    } else if same_chars(&keyword, &from) {
        if toks.len() < 3 {
            return None;
        }
        Some(names_in_list(&toks))
    } else {
        let names: Vec<String> = Vec::new();
        assert(names.deep_view() =~= Seq::<Seq<char>>::empty());
        Some(names)
    }
}

impl PyImports {
    /// The bound names as sequences of characters.
    pub open spec fn names(&self) -> Seq<Seq<char>> {
        self.attributes.deep_view()
    }

    /// Resolves the statements `lines`, in order. The result holds the names
    /// that they bind; the first malformed statement, if there is one, is
    /// reported instead.
    pub fn from_list_of_strings(lines: Vec<String>) -> (r: Result<PyImports, MalformedImport>)
        ensures
            match r {
                Ok(imports) => {
                    &&& all_well_formed(lines.deep_view())
                    &&& imports.names() == all_bound_names(lines.deep_view())
                },
                Err(e) => is_first_malformed(lines.deep_view(), e.position as int),
            },
    {
        let ghost all = lines.deep_view();
        let mut attributes: Vec<String> = Vec::new();
        let mut i: usize = 0;
        while i < lines.len()
            invariant
                i <= lines.len(),
                all == lines.deep_view(),
                all_well_formed(all.take(i as int)),
                attributes.deep_view() == all_bound_names(all.take(i as int)),
            decreases lines.len() - i,
        {
            let ghost before = attributes.deep_view();
            match resolve_statement(lines[i].as_str()) {
                None => {
                    assert(all[i as int] == lines[i as int]@);
                    return Err(MalformedImport { position: i });
                },
                Some(mut names) => {
                    let ghost added = names.deep_view();
                    attributes.append(&mut names);
                    proof {
                        assert(all.take(i + 1).drop_last() =~= all.take(i as int));
                        assert(all.take(i + 1).last() == lines[i as int]@);
                        assert(attributes.deep_view() =~= before + added);
                        assert forall|j: int| 0 <= j < i + 1 implies !statement_is_malformed(
                            #[trigger] all.take(i + 1)[j],
                        ) by {
                            if j < i {
                                assert(all.take(i + 1)[j] == all.take(i as int)[j]);
                            }
                        }
                    }
                },
            }
            i += 1;
        }
        assert(all.take(lines.len() as int) =~= all);
        Ok(PyImports { attributes })
    }
}

} // verus!
