//! Text of a segment: the longest common prefix of two texts and the
//! wildcard marker at the end of a text.

use vstd::prelude::*;

verus! {

/// Number of leading characters that `a` and `b` share before their first
/// mismatch, or before either of them ends.
pub open spec fn common_prefix_len(a: Seq<char>, b: Seq<char>) -> nat
    decreases a.len(),
{
    if a.len() > 0 && b.len() > 0 && a[0] == b[0] {
        1 + common_prefix_len(a.drop_first(), b.drop_first())
    } else {
        0
    }
}

/// `n` is the length of the longest common prefix of `a` and `b`: both
/// agree on their first `n` characters, and one of them ends there or they
/// differ at position `n`.
pub open spec fn is_common_prefix_len(a: Seq<char>, b: Seq<char>, n: int) -> bool {
    &&& 0 <= n <= a.len()
    &&& n <= b.len()
    &&& forall|i: int| 0 <= i < n ==> a[i] == b[i]
    &&& n < a.len() && n < b.len() ==> a[n] != b[n]
}

/// The text ends with the two characters `/*`.
pub open spec fn ends_with_marker(text: Seq<char>) -> bool {
    &&& text.len() >= 2
    &&& text[text.len() - 2] == '/'
    &&& text[text.len() - 1] == '*'
}

/// The text is literal: it holds no `*`.
pub open spec fn is_literal(text: Seq<char>) -> bool {
    forall|i: int| 0 <= i < text.len() ==> text[i] != '*'
}

/// `common_prefix_len` is the length of the longest common prefix.
pub proof fn lemma_common_prefix_len(a: Seq<char>, b: Seq<char>)
    ensures
        is_common_prefix_len(a, b, common_prefix_len(a, b) as int),
    decreases a.len(),
{
    if a.len() > 0 && b.len() > 0 && a[0] == b[0] {
        let a1 = a.drop_first();
        let b1 = b.drop_first();
        lemma_common_prefix_len(a1, b1);
        let n = common_prefix_len(a, b) as int;
        assert forall|i: int| 0 <= i < n implies a[i] == b[i] by {
            if i > 0 {
                assert(a1[i - 1] == b1[i - 1]);
            }
        }
        if n < a.len() && n < b.len() {
            assert(a1[n - 1] != b1[n - 1]);
        }
    }
}

/// Only one number is the length of the longest common prefix.
pub proof fn lemma_common_prefix_len_unique(a: Seq<char>, b: Seq<char>, n: int)
    requires
        is_common_prefix_len(a, b, n),
    ensures
        common_prefix_len(a, b) == n,
{
    lemma_common_prefix_len(a, b);
    let m = common_prefix_len(a, b) as int;
    if m < n {
        assert(a[m] == b[m]);
    } else if n < m {
        assert(a[n] == b[n]);
    }
}

/// A text shares the whole of each of its prefixes with that prefix.
pub proof fn lemma_common_prefix_len_of_prefix(a: Seq<char>, b: Seq<char>)
    requires
        a.is_prefix_of(b),
    ensures
        common_prefix_len(a, b) == a.len(),
        common_prefix_len(b, a) == a.len(),
{
    assert forall|i: int| 0 <= i < a.len() implies a[i] == b[i] by {
        assert(a[i] == b.subrange(0, a.len() as int)[i]);
    }
    lemma_common_prefix_len_unique(a, b, a.len() as int);
    lemma_common_prefix_len_unique(b, a, a.len() as int);
}

/// Two texts that agree on their first `n` characters compare by what
/// follows: where the rest of `key` begins the rest of `text`, `key`
/// begins `text`; where the rest of `key` begins with the rest of `text`
/// without its last character, `key` begins with `text` without it.
pub proof fn lemma_joined_prefix(text: Seq<char>, key: Seq<char>, n: int)
    requires
        0 <= n < text.len(),
        n <= key.len(),
        forall|k: int| 0 <= k < n ==> key[k] == text[k],
    ensures
        key.skip(n).is_prefix_of(text.skip(n)) ==> key.is_prefix_of(text),
        text.skip(n).drop_last().is_prefix_of(key.skip(n)) ==> text.drop_last().is_prefix_of(key),
{
    let left = key.skip(n);
    let rest = text.skip(n);
    if left.is_prefix_of(rest) {
        assert forall|k: int| 0 <= k < key.len() implies key[k] == text[k] by {
            if k >= n {
                assert(left[k - n] == rest.subrange(0, left.len() as int)[k - n]);
            }
        }
        assert(key =~= text.subrange(0, key.len() as int));
    }
    if rest.drop_last().is_prefix_of(left) {
        let base = text.drop_last();
        assert forall|k: int| 0 <= k < base.len() implies key[k] == base[k] by {
            if k >= n {
                assert(rest.drop_last()[k - n] == left.subrange(
                    0,
                    rest.drop_last().len() as int,
                )[k - n]);
            }
        }
        assert(base =~= key.subrange(0, base.len() as int));
    }
}

/// Whether the text ends with the wildcard marker `/*`.
pub fn includes_wildcard(path: &str) -> (found: bool)
    ensures
        found == ends_with_marker(path@),
{
    let n: usize = path.unicode_len();
    n >= 2 && path.get_char(n - 2) == '/' && path.get_char(n - 1) == '*'
}

} // verus!
