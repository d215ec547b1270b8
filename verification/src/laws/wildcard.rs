//! Laws of the wildcard: what a path that ends with `/*` covers.

use vstd::prelude::*;
use crate::laws::insertion::lemma_inserted_starts_alike;
use crate::laws::lookup::lemma_held_key_matches;
use crate::model::first_taking;
use crate::model::lemma_first_taking;
use crate::model::lemma_first_taking_unique;
use crate::model::NodeModel;
use crate::segment::common_prefix_len;
use crate::segment::ends_with_marker;
use crate::segment::lemma_common_prefix_len;

verus! {

/// The leaf made for a text that ends with `/*` and is longer than that
/// marker holds the text without its `*`, followed by anything.
proof fn lemma_wildcard_leaf(text: Seq<char>, suffix: Seq<char>)
    requires
        ends_with_marker(text),
        text.len() > 2,
        suffix.len() > 0,
    ensures
        NodeModel::leaf(text).starts_with(text[0]),
        NodeModel::leaf(text).holds(text.drop_last() + suffix),
{
    let leaf = NodeModel::leaf(text);
    let key = text.drop_last() + suffix;
    assert(leaf.segment.is_prefix_of(key));
    assert(key.skip(leaf.segment.len() as int) =~= suffix);
    lemma_first_taking_unique(leaf.children, suffix[0], true, 0);
}

/// Wildcard coverage. Let `path` end with `/*`, and let the tree not hold
/// yet what stands in `path` before that marker. After `path` was
/// inserted, the tree holds, and a lookup matches, every key made of
/// `path` without its `*` and at least one more character.
pub proof fn lemma_wildcard_covers(tree: NodeModel, path: Seq<char>, suffix: Seq<char>)
    requires
        ends_with_marker(path),
        !tree.holds(path.take(path.len() - 2)),
        suffix.len() > 0,
    ensures
        tree.inserted(path).holds(path.drop_last() + suffix),
        tree.inserted(path).matches(path.drop_last() + suffix),
    decreases tree,
{
    let after = tree.inserted(path);
    let base = path.take(path.len() - 2);
    let key = path.drop_last() + suffix;
    let common = common_prefix_len(tree.segment, path) as int;
    let rest = path.skip(common);
    let left = key.skip(common);
    lemma_common_prefix_len(tree.segment, path);
    if tree.segment.len() == 0 && tree.children.len() == 0 {
        // The tree holds the empty text, so the path is longer than the
        // marker, and its leaf is split.
        assert(base.len() > 0) by {
            if base.len() == 0 {
                assert(base.is_prefix_of(tree.segment));
            }
        }
        lemma_wildcard_leaf(path, suffix);
        assert(after.segment.is_prefix_of(key));
        assert(key.skip(0) =~= key);
        lemma_first_taking_unique(after.children, key[0], true, 0);
    } else {
        // The tree holds what the path shares with the segment: the rest
        // of the path is longer than the marker, and its leaf is split.
        assert(common < base.len()) by {
            if common >= base.len() {
                assert(base.is_prefix_of(tree.segment));
            }
        }
        assert(ends_with_marker(rest));
        assert(left =~= rest.drop_last() + suffix);
        assert(after.segment.is_prefix_of(key));
        if common < tree.segment.len() {
            lemma_wildcard_leaf(rest, suffix);
            if after.children[0].is_wildcard() {
                lemma_first_taking_unique(after.children, left[0], true, 0);
            } else {
                lemma_first_taking_unique(after.children, left[0], true, 1);
            }
        } else {
            let i = first_taking(tree.children, rest[0], false);
            let j = first_taking(tree.children, rest[0], true);
            lemma_first_taking(tree.children, rest[0], false);
            lemma_first_taking(tree.children, rest[0], true);
            assert(tree.segment.is_prefix_of(base));
            assert(base.skip(tree.segment.len() as int) =~= rest.take(rest.len() - 2));
            // No wildcard node stands before the child that takes the
            // rest of the path: the tree would hold every key behind it.
            assert(j == i) by {
                if j < i {
                    assert(tree.children[j].is_wildcard());
                } else if i < j {
                    assert(!tree.children[i].takes(rest[0], true));
                }
            }
            if i < tree.children.len() {
                lemma_inserted_starts_alike(tree.children[i], rest);
                lemma_wildcard_covers(tree.children[i], rest, suffix);
                lemma_first_taking_unique(after.children, left[0], true, i);
            } else {
                lemma_wildcard_leaf(rest, suffix);
                lemma_first_taking_unique(after.children, left[0], true, i);
            }
        }
    }
    lemma_held_key_matches(after, key);
}

} // verus!
