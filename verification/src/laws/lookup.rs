//! Laws of lookup: which keys a tree matches.

use vstd::prelude::*;
use crate::laws::insertion::lemma_inserted_starts_alike;
use crate::laws::insertion::lemma_leaf;
use crate::model::first_taking;
use crate::model::lemma_first_taking;
use crate::model::lemma_first_taking_unique;
use crate::model::NodeModel;
use crate::segment::lemma_common_prefix_len_of_prefix;
use crate::segment::lemma_common_prefix_len_unique;

verus! {

/// The empty key is matched by no tree.
pub proof fn lemma_empty_key_never_matches(tree: NodeModel)
    ensures
        !tree.matches(Seq::empty()),
{
}

/// A key that the tree holds, if it is not empty, is matched by a lookup.
pub proof fn lemma_held_key_matches(tree: NodeModel, key: Seq<char>)
    requires
        tree.holds(key),
        key.len() > 0,
    ensures
        tree.matches(key),
    decreases tree,
{
    if key.len() <= tree.segment.len() {
        lemma_common_prefix_len_of_prefix(key, tree.segment);
        assert(key.skip(key.len() as int).len() == 0);
    } else {
        lemma_common_prefix_len_of_prefix(tree.segment, key);
        let rest = key.skip(tree.segment.len() as int);
        let i = first_taking(tree.children, rest[0], true);
        if !tree.children[i].is_wildcard() {
            lemma_held_key_matches(tree.children[i], rest);
        }
    }
}

/// Every prefix of a key that the tree holds is held too.
pub proof fn lemma_prefix_of_held_is_held(tree: NodeModel, key: Seq<char>, prefix: Seq<char>)
    requires
        tree.holds(key),
        prefix.is_prefix_of(key),
    ensures
        tree.holds(prefix),
    decreases tree,
{
    if prefix.len() <= tree.segment.len() {
        assert(prefix.is_prefix_of(tree.segment)) by {
            assert forall|i: int| 0 <= i < prefix.len() implies prefix[i] == tree.segment[i] by {
                assert(prefix[i] == key.subrange(0, prefix.len() as int)[i]);
                if key.len() <= tree.segment.len() {
                    assert(key[i] == tree.segment.subrange(0, key.len() as int)[i]);
                } else {
                    assert(tree.segment[i] == key.subrange(0, tree.segment.len() as int)[i]);
                }
            }
        }
    } else {
        let rest = key.skip(tree.segment.len() as int);
        let left = prefix.skip(tree.segment.len() as int);
        let i = first_taking(tree.children, rest[0], true);
        assert(tree.segment.is_prefix_of(prefix)) by {
            assert forall|i: int| 0 <= i < tree.segment.len() implies tree.segment[i]
                == prefix[i] by {
                assert(prefix[i] == key.subrange(0, prefix.len() as int)[i]);
                assert(tree.segment[i] == key.subrange(0, tree.segment.len() as int)[i]);
            }
        }
        assert(left.is_prefix_of(rest)) by {
            assert forall|i: int| 0 <= i < left.len() implies left[i] == rest[i] by {
                assert(prefix[i + tree.segment.len()] == key.subrange(0, prefix.len() as int)[i
                    + tree.segment.len()]);
            }
        }
        assert(left[0] == rest.subrange(0, left.len() as int)[0]);
        if !tree.children[i].is_wildcard() {
            lemma_prefix_of_held_is_held(tree.children[i], rest, left);
        }
    }
}

/// A node holds a key that goes on behind the first `n` characters of its
/// segment if and only if its lower part holds the rest of the key.
pub proof fn lemma_lower_part_holds(tree: NodeModel, n: int, key: Seq<char>)
    requires
        0 <= n < tree.segment.len(),
        n < key.len(),
        tree.segment.take(n).is_prefix_of(key),
    ensures
        tree.holds(key) == tree.lower_part(n).holds(key.skip(n)),
{
    let lower = tree.lower_part(n);
    let left = key.skip(n);
    let size = tree.segment.len() as int;
    assert forall|k: int| 0 <= k < n implies key[k] == tree.segment[k] by {
        assert(tree.segment.take(n)[k] == key.subrange(0, n)[k]);
    }
    if key.len() <= size {
        if key.is_prefix_of(tree.segment) {
            assert forall|k: int| 0 <= k < left.len() implies left[k] == lower.segment[k] by {
                assert(key[k + n] == tree.segment.subrange(0, key.len() as int)[k + n]);
            }
            assert(left =~= lower.segment.subrange(0, left.len() as int));
        }
        if left.is_prefix_of(lower.segment) {
            assert forall|k: int| 0 <= k < key.len() implies key[k] == tree.segment[k] by {
                if k >= n {
                    assert(left[k - n] == lower.segment.subrange(0, left.len() as int)[k - n]);
                }
            }
            assert(key =~= tree.segment.subrange(0, key.len() as int));
        }
    } else {
        assert(left.skip(lower.segment.len() as int) =~= key.skip(size));
        if tree.segment.is_prefix_of(key) {
            assert forall|k: int| 0 <= k < lower.segment.len() implies lower.segment[k]
                == left[k] by {
                assert(tree.segment[k + n] == key.subrange(0, size)[k + n]);
            }
            assert(lower.segment =~= left.subrange(0, lower.segment.len() as int));
        }
        if lower.segment.is_prefix_of(left) {
            assert forall|k: int| 0 <= k < size implies tree.segment[k] == key[k] by {
                if k >= n {
                    assert(lower.segment[k - n] == left.subrange(
                        0,
                        lower.segment.len() as int,
                    )[k - n]);
                }
            }
            assert(tree.segment =~= key.subrange(0, size));
        }
    }
}

/// Insertion is local. In a tree whose root has an empty segment, a path
/// that does not begin with `*` is inserted without a change to the
/// answer for any key that begins with another character than the path.
/// The root's segment stays empty.
pub proof fn lemma_insertion_is_local(tree: NodeModel, path: Seq<char>, key: Seq<char>)
    requires
        tree.segment.len() == 0,
        path.len() > 0,
        key.len() > 0,
        path[0] != '*',
        key[0] != path[0],
    ensures
        tree.inserted(path).segment.len() == 0,
        tree.inserted(path).matches(key) == tree.matches(key),
{
    let after = tree.inserted(path);
    lemma_common_prefix_len_unique(tree.segment, path, 0);
    lemma_common_prefix_len_unique(tree.segment, key, 0);
    assert(path.skip(0) =~= path);
    assert(key.skip(0) =~= key);
    let i = first_taking(tree.children, path[0], false);
    let j = first_taking(tree.children, key[0], true);
    lemma_first_taking(tree.children, path[0], false);
    lemma_first_taking(tree.children, key[0], true);
    // Neither the child that the path goes into nor a new leaf begins with
    // the key's first character, and neither is a wildcard node.
    if tree.children.len() == 0 {
        lemma_leaf(path);
        lemma_first_taking_unique(after.children, key[0], true, 1);
    } else if i < tree.children.len() {
        lemma_inserted_starts_alike(tree.children[i], path);
        lemma_first_taking_unique(after.children, key[0], true, j);
    } else {
        lemma_leaf(path);
        if j < tree.children.len() {
            lemma_first_taking_unique(after.children, key[0], true, j);
        } else {
            lemma_first_taking_unique(after.children, key[0], true, j + 1);
        }
    }
}

/// No match without a common beginning. After paths were inserted into
/// the empty tree, none of which is empty or begins with `*`, a key that
/// begins with a character with which none of the paths begins is not
/// matched.
pub proof fn lemma_foreign_key_is_not_matched(paths: Seq<Seq<char>>, key: Seq<char>)
    requires
        key.len() > 0,
        forall|i: int|
            0 <= i < paths.len() ==> (#[trigger] paths[i]).len() > 0 && paths[i][0] != '*'
                && paths[i][0] != key[0],
    ensures
        NodeModel::empty().inserted_all(paths).segment.len() == 0,
        !NodeModel::empty().inserted_all(paths).matches(key),
    decreases paths.len(),
{
    if paths.len() == 0 {
        lemma_first_taking_unique(NodeModel::empty().children, key[0], true, 0);
    } else {
        let front = paths.drop_last();
        assert forall|i: int| 0 <= i < front.len() implies (#[trigger] front[i]).len() > 0
            && front[i][0] != '*' && front[i][0] != key[0] by {
            assert(front[i] == paths[i]);
        }
        lemma_foreign_key_is_not_matched(front, key);
        lemma_insertion_is_local(NodeModel::empty().inserted_all(front), paths.last(), key);
    }
}

} // verus!
