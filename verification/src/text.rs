//! Characters, whitespace and tokens.
//!
//! Every contract of the library speaks of a string through its view, the
//! sequence of its characters. This module holds the vocabulary for that:
//! what whitespace is, and how a string is trimmed and cut into tokens.

use vstd::prelude::*;

verus! {

/// Whether `c` carries the Unicode `White_Space` property.
pub open spec fn is_space(c: char) -> bool {
    let n = c as int;
    ||| 0x09 <= n <= 0x0D
    ||| n == 0x20
    ||| n == 0x85
    ||| n == 0xA0
    ||| n == 0x1680
    ||| 0x2000 <= n <= 0x200A
    ||| n == 0x2028
    ||| n == 0x2029
    ||| n == 0x202F
    ||| n == 0x205F
    ||| n == 0x3000
}

/// The first position at or after `from` that holds no whitespace; the length
/// of `s` when only whitespace follows.
pub open spec fn skip_spaces(s: Seq<char>, from: int) -> int
    decreases s.len() - from,
{
    if 0 <= from < s.len() && is_space(s[from]) {
        skip_spaces(s, from + 1)
    } else {
        from
    }
}

/// The first position at or after `from` that holds whitespace; the length of
/// `s` when none follows.
pub open spec fn skip_word(s: Seq<char>, from: int) -> int
    decreases s.len() - from,
{
    if 0 <= from < s.len() && !is_space(s[from]) {
        skip_word(s, from + 1)
    } else {
        from
    }
}

/// The position just behind the last character before `upto` that is not
/// whitespace; zero when only whitespace comes before `upto`.
pub open spec fn content_end(s: Seq<char>, upto: int) -> int
    decreases upto,
{
    if 0 < upto <= s.len() && is_space(s[upto - 1]) {
        content_end(s, upto - 1)
    } else {
        upto
    }
}

/// `s` without its leading whitespace.
pub open spec fn trim_start(s: Seq<char>) -> Seq<char> {
    s.skip(skip_spaces(s, 0))
}

/// `s` without its leading and trailing whitespace.
pub open spec fn trim(s: Seq<char>) -> Seq<char> {
    let from = skip_spaces(s, 0);
    let to = content_end(s, s.len() as int);
    if from < to {
        s.subrange(from, to)
    } else {
        Seq::empty()
    }
}

/// Whether `s` holds nothing but whitespace.
pub open spec fn is_blank(s: Seq<char>) -> bool {
    forall|i: int| 0 <= i < s.len() ==> is_space(#[trigger] s[i])
}

/// Whether `s` holds no whitespace.
pub open spec fn holds_no_space(s: Seq<char>) -> bool {
    forall|i: int| 0 <= i < s.len() ==> !is_space(#[trigger] s[i])
}

/// The maximal runs of characters other than whitespace that `s` holds from
/// position `from` on, in order.
pub open spec fn tokens_from(s: Seq<char>, from: int) -> Seq<Seq<char>>
    decreases s.len() - from,
{
    let start = skip_spaces(s, from);
    let end = skip_word(s, start);
    if 0 <= from <= start < end <= s.len() {
        seq![s.subrange(start, end)] + tokens_from(s, end)
    } else {
        Seq::empty()
    }
}

/// The whitespace-separated tokens of `s`.
pub open spec fn tokens(s: Seq<char>) -> Seq<Seq<char>> {
    tokens_from(s, 0)
}

/// What [`skip_spaces`] returns lies in range, passes whitespace only, and
/// stops at a character that is none.
pub proof fn lemma_skip_spaces(s: Seq<char>, from: int)
    requires
        0 <= from <= s.len(),
    ensures
        from <= skip_spaces(s, from) <= s.len(),
        forall|i: int| from <= i < skip_spaces(s, from) ==> is_space(#[trigger] s[i]),
        skip_spaces(s, from) < s.len() ==> !is_space(s[skip_spaces(s, from)]),
    decreases s.len() - from,
{
    if from < s.len() && is_space(s[from]) {
        lemma_skip_spaces(s, from + 1);
    }
}

/// What [`skip_word`] returns lies in range, passes no whitespace, and stops
/// at whitespace.
pub proof fn lemma_skip_word(s: Seq<char>, from: int)
    requires
        0 <= from <= s.len(),
    ensures
        from <= skip_word(s, from) <= s.len(),
        forall|i: int| from <= i < skip_word(s, from) ==> !is_space(#[trigger] s[i]),
        skip_word(s, from) < s.len() ==> is_space(s[skip_word(s, from)]),
    decreases s.len() - from,
{
    if from < s.len() && !is_space(s[from]) {
        lemma_skip_word(s, from + 1);
    }
}

/// What [`content_end`] returns lies in range, passes whitespace only, and
/// stops behind a character that is none.
pub proof fn lemma_content_end(s: Seq<char>, upto: int)
    requires
        0 <= upto <= s.len(),
    ensures
        0 <= content_end(s, upto) <= upto,
        forall|i: int| content_end(s, upto) <= i < upto ==> is_space(#[trigger] s[i]),
        content_end(s, upto) > 0 ==> !is_space(s[content_end(s, upto) - 1]),
    decreases upto,
{
    if 0 < upto && is_space(s[upto - 1]) {
        lemma_content_end(s, upto - 1);
    }
}

/// A string is blank exactly when skipping its whitespace reaches its end.
pub proof fn lemma_blank_skips_all(s: Seq<char>)
    ensures
        is_blank(s) <==> skip_spaces(s, 0) == s.len(),
{
    lemma_skip_spaces(s, 0);
}

/// What is trimmed is a part of the string with only whitespace before and
/// behind it, and neither starts nor ends with whitespace; it is empty
/// exactly when the string is blank.
pub proof fn lemma_trim(s: Seq<char>)
    ensures
        is_blank(s) <==> trim(s).len() == 0,
        trim(s).len() > 0 ==> !is_space(trim(s).first()) && !is_space(trim(s).last()),
        exists|from: int, to: int|
            {
                &&& 0 <= from <= to <= s.len()
                &&& #[trigger] s.subrange(from, to) == trim(s)
                &&& is_blank(s.subrange(0, from))
                &&& is_blank(s.subrange(to, s.len() as int))
            },
{
    lemma_skip_spaces(s, 0);
    lemma_content_end(s, s.len() as int);
    let from = skip_spaces(s, 0);
    let to = content_end(s, s.len() as int);
    if from < to {
        assert(s.subrange(from, to) == trim(s));
        assert(is_blank(s.subrange(0, from)));
        assert(is_blank(s.subrange(to, s.len() as int)));
        assert(!is_blank(s)) by {
            assert(!is_space(s[from]));
        }
    } else {
        assert(s.subrange(from, from) =~= trim(s));
        assert(is_blank(s.subrange(0, from)));
        assert(is_blank(s)) by {
            assert forall|i: int| 0 <= i < s.len() implies is_space(#[trigger] s[i]) by {
                if i >= from {
                    assert(i >= to);
                }
            }
        }
        assert(is_blank(s.subrange(from, s.len() as int)));
    }
}

/// A token is not empty and holds no whitespace.
pub proof fn lemma_tokens_hold_no_space(s: Seq<char>, from: int)
    requires
        0 <= from <= s.len(),
    ensures
        forall|i: int|
            0 <= i < tokens_from(s, from).len() ==> {
                &&& holds_no_space(#[trigger] tokens_from(s, from)[i])
                &&& tokens_from(s, from)[i].len() > 0
            },
    decreases s.len() - from,
{
    lemma_skip_spaces(s, from);
    let start = skip_spaces(s, from);
    lemma_skip_word(s, start);
    let end = skip_word(s, start);
    let toks = tokens_from(s, from);
    if start < end {
        lemma_tokens_hold_no_space(s, end);
        let token = s.subrange(start, end);
        let later = tokens_from(s, end);
        assert forall|i: int| 0 <= i < toks.len() implies holds_no_space(#[trigger] toks[i])
            && toks[i].len() > 0 by {
            if i == 0 {
                assert(toks[0] == token);
                assert forall|j: int| 0 <= j < token.len() implies !is_space(
                    #[trigger] token[j],
                ) by {
                    assert(token[j] == s[start + j]);
                }
            } else {
                assert(toks[i] == later[i - 1]);
            }
        }
    }
}

/// Decides [`is_space`].
pub fn is_whitespace(c: char) -> (r: bool)
    ensures
        r == is_space(c),
{
    let n: u32 = c as u32;
    (0x09 <= n && n <= 0x0D) || n == 0x20 || n == 0x85 || n == 0xA0 || n == 0x1680 || (0x2000 <= n
        && n <= 0x200A) || n == 0x2028 || n == 0x2029 || n == 0x202F || n == 0x205F || n == 0x3000
}

/// The characters of `s`, in order.
pub fn to_chars(s: &str) -> (v: Vec<char>)
    ensures
        v@ == s@,
{
    let mut v: Vec<char> = Vec::new();
    for c in it: s.chars()
        invariant
            it.seq() == s@,
            v@ == it.seq().take(it.index() as int),
    {
        v.push(c);
    }
    v
}

/// Computes [`skip_spaces`] on the characters `cs`.
pub fn skip_spaces_in(cs: &Vec<char>, from: usize) -> (k: usize)
    requires
        from <= cs.len(),
    ensures
        k == skip_spaces(cs@, from as int),
        from <= k <= cs.len(),
{
    let mut i: usize = from;
    while i < cs.len() && is_whitespace(cs[i])
        invariant
            from <= i <= cs.len(),
            skip_spaces(cs@, from as int) == skip_spaces(cs@, i as int),
        decreases cs.len() - i,
    {
        i += 1;
    }
    i
}

/// Computes [`skip_word`] on the characters `cs`.
pub fn skip_word_in(cs: &Vec<char>, from: usize) -> (k: usize)
    requires
        from <= cs.len(),
    ensures
        k == skip_word(cs@, from as int),
        from <= k <= cs.len(),
{
    let mut i: usize = from;
    while i < cs.len() && !is_whitespace(cs[i])
        invariant
            from <= i <= cs.len(),
            skip_word(cs@, from as int) == skip_word(cs@, i as int),
        decreases cs.len() - i,
    {
        i += 1;
    }
    i
}

/// Computes [`content_end`] on the characters `cs`.
pub fn content_end_in(cs: &Vec<char>, upto: usize) -> (k: usize)
    requires
        upto <= cs.len(),
    ensures
        k == content_end(cs@, upto as int),
        k <= upto,
{
    let mut i: usize = upto;
    while i > 0 && is_whitespace(cs[i - 1])
        invariant
            i <= upto <= cs.len(),
            content_end(cs@, upto as int) == content_end(cs@, i as int),
        decreases i,
    {
        i -= 1;
    }
    i
}

/// Whether the characters of `p` stand in `cs` from position `from` on.
pub fn has_prefix_at(cs: &Vec<char>, from: usize, p: &Vec<char>) -> (r: bool)
    requires
        from <= cs.len(),
    ensures
        r == p@.is_prefix_of(cs@.skip(from as int)),
{
    if p.len() > cs.len() - from {
        return false;
    }
    let mut i: usize = 0;
    while i < p.len()
        invariant
            from <= cs.len(),
            p.len() <= cs.len() - from,
            i <= p.len(),
            forall|j: int| 0 <= j < i ==> p@[j] == cs@[from + j],
        decreases p.len() - i,
    {
        if p[i] != cs[from + i] {
            assert(cs@.skip(from as int)[i as int] == cs@[from + i]);
            return false;
        }
        i += 1;
    }
    assert(p@ =~= cs@.skip(from as int).subrange(0, p@.len() as int));
    true
}

/// Whether `a` and `b` hold the same characters.
pub fn same_chars(a: &Vec<char>, b: &Vec<char>) -> (r: bool)
    ensures
        r == (a@ == b@),
{
    if a.len() != b.len() {
        return false;
    }
    let r: bool = has_prefix_at(a, 0, b);
    proof {
        assert(a@.skip(0) =~= a@);
        if r {
            assert(a@ =~= b@);
        }
    }
    r
}

/// Whether `a` and `b` hold the same text.
pub fn same_text(a: &str, b: &str) -> (r: bool)
    ensures
        r == (a@ == b@),
{
    let ca = to_chars(a);
    let cb = to_chars(b);
    same_chars(&ca, &cb)
}

/// `s` without its leading and trailing whitespace.
pub fn trimmed(s: &str) -> (t: String)
    ensures
        t@ == trim(s@),
{
    let cs = to_chars(s);
    let from: usize = skip_spaces_in(&cs, 0);
    let to: usize = content_end_in(&cs, cs.len());
    if from < to {
        s.substring_char(from, to).to_owned()
    } else {
        String::new()
    }
}

/// The whitespace-separated tokens of `s`, in order.
pub fn split_tokens(s: &str) -> (out: Vec<String>)
    ensures
        out.deep_view() == tokens(s@),
{
    let cs = to_chars(s);
    let mut out: Vec<String> = Vec::new();
    let mut i: usize = 0;
    loop
        invariant
            cs@ == s@,
            i <= cs.len(),
            tokens(s@) == out.deep_view() + tokens_from(s@, i as int),
        decreases cs.len() - i,
    {
        let start: usize = skip_spaces_in(&cs, i);
        let end: usize = skip_word_in(&cs, start);
        if start >= end {
            assert(out.deep_view() + Seq::<Seq<char>>::empty() =~= out.deep_view());
            return out;
        }
        let token = s.substring_char(start, end).to_owned();
        let ghost before = out.deep_view();
        out.push(token);
        proof {
            assert(out.deep_view() =~= before.push(s@.subrange(start as int, end as int)));
            assert(before + (seq![s@.subrange(start as int, end as int)] + tokens_from(
                s@,
                end as int,
            )) =~= before.push(s@.subrange(start as int, end as int)) + tokens_from(
                s@,
                end as int,
            ));
        }
        i = end;
    }
}

} // verus!
