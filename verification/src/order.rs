//! The order of names: strings compared character by character, by code
//! point.

use vstd::prelude::*;
use crate::text::to_chars;

verus! {

/// The first position at or after `from` at which `a` and `b` differ or one
/// of them ends.
pub open spec fn mismatch(a: Seq<char>, b: Seq<char>, from: int) -> int
    decreases a.len() - from,
{
    if 0 <= from < a.len() && from < b.len() && a[from] == b[from] {
        mismatch(a, b, from + 1)
    } else {
        from
    }
}

/// The strict lexicographic order of strings by code point: `a` comes first
/// when it is a proper prefix of `b`, or holds the smaller character where
/// the two first differ.
pub open spec fn str_lt(a: Seq<char>, b: Seq<char>) -> bool {
    let k = mismatch(a, b, 0);
    k < b.len() && (k >= a.len() || (a[k] as int) < (b[k] as int))
}

/// What [`mismatch`] returns lies in range of both strings, which agree up to
/// it and differ at it where both go on.
pub proof fn lemma_mismatch(a: Seq<char>, b: Seq<char>, from: int)
    requires
        0 <= from <= a.len(),
        from <= b.len(),
    ensures
        from <= mismatch(a, b, from) <= a.len(),
        mismatch(a, b, from) <= b.len(),
        forall|i: int| from <= i < mismatch(a, b, from) ==> a[i] == b[i],
        mismatch(a, b, from) < a.len() && mismatch(a, b, from) < b.len() ==> a[mismatch(
            a,
            b,
            from,
        )] != b[mismatch(a, b, from)],
    decreases a.len() - from,
{
    if from < a.len() && from < b.len() && a[from] == b[from] {
        lemma_mismatch(a, b, from + 1);
    }
}

/// A position up to which `a` and `b` agree, and at which they differ or one
/// ends, is the one that [`mismatch`] finds.
pub proof fn lemma_mismatch_is(a: Seq<char>, b: Seq<char>, k: int)
    requires
        0 <= k <= a.len(),
        k <= b.len(),
        forall|i: int| 0 <= i < k ==> a[i] == b[i],
        k < a.len() && k < b.len() ==> a[k] != b[k],
    ensures
        mismatch(a, b, 0) == k,
{
    lemma_mismatch(a, b, 0);
    let m = mismatch(a, b, 0);
    if m < k {
        assert(a[m] == b[m]);
    } else if k < m {
        assert(a[k] == b[k]);
    }
}

/// No string comes before itself.
pub proof fn lemma_str_lt_irreflexive(a: Seq<char>)
    ensures
        !str_lt(a, a),
{
    lemma_mismatch_is(a, a, a.len() as int);
}

/// Of two different strings one comes before the other.
pub proof fn lemma_str_lt_total(a: Seq<char>, b: Seq<char>)
    ensures
        a == b || str_lt(a, b) || str_lt(b, a),
{
    lemma_mismatch(a, b, 0);
    let k = mismatch(a, b, 0);
    lemma_mismatch_is(b, a, k);
    if k == a.len() && k == b.len() {
        assert(a =~= b);
    }
}

/// Of two strings at most one comes before the other.
pub proof fn lemma_str_lt_asymmetric(a: Seq<char>, b: Seq<char>)
    ensures
        !(str_lt(a, b) && str_lt(b, a)),
{
    lemma_mismatch(a, b, 0);
    lemma_mismatch_is(b, a, mismatch(a, b, 0));
}

/// The order of strings is transitive.
pub proof fn lemma_str_lt_transitive(a: Seq<char>, b: Seq<char>, c: Seq<char>)
    requires
        str_lt(a, b),
        str_lt(b, c),
    ensures
        str_lt(a, c),
{
    lemma_mismatch(a, b, 0);
    lemma_mismatch(b, c, 0);
    let i = mismatch(a, b, 0);
    let j = mismatch(b, c, 0);
    let k = if i <= j { i } else { j };
    assert forall|n: int| 0 <= n < k implies a[n] == c[n] by {
        assert(a[n] == b[n]);
        assert(b[n] == c[n]);
    }
    lemma_mismatch_is(a, c, k);
}

/// Whether the code point of `x` is smaller than that of `y`.
pub fn char_lt(x: char, y: char) -> (r: bool)
    ensures
        r == ((x as int) < (y as int)),
{
    (x as u32) < (y as u32)
}

/// Decides [`str_lt`] on characters.
pub fn chars_lt(a: &Vec<char>, b: &Vec<char>) -> (r: bool)
    ensures
        r == str_lt(a@, b@),
{
    let mut i: usize = 0;
    while i < a.len() && i < b.len() && a[i] == b[i]
        invariant
            i <= a.len(),
            i <= b.len(),
            mismatch(a@, b@, 0) == mismatch(a@, b@, i as int),
        decreases a.len() - i,
    {
        i += 1;
    }
    if i >= b.len() {
        false
    } else if i >= a.len() {
        true
    } else {
        char_lt(a[i], b[i])
    }
}

/// Whether `a` comes before `b` in the order of strings by code point.
pub fn string_lt(a: &str, b: &str) -> (r: bool)
    ensures
        r == str_lt(a@, b@),
{
    let ca = to_chars(a);
    let cb = to_chars(b);
    chars_lt(&ca, &cb)
}

} // verus!
