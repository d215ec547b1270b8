//! Laws of literal trees: what a tree without a `*` holds, and no more.

use vstd::prelude::*;
use crate::laws::insertion::lemma_inserted_keeps_held;
use crate::laws::insertion::lemma_inserted_path_is_held;
use crate::laws::insertion::lemma_inserted_starts_alike;
use crate::laws::lookup::lemma_lower_part_holds;
use crate::laws::lookup::lemma_prefix_of_held_is_held;
use crate::model::first_taking;
use crate::model::lemma_first_taking;
use crate::model::lemma_first_taking_unique;
use crate::model::NodeModel;
use crate::segment::common_prefix_len;
use crate::segment::ends_with_marker;
use crate::segment::is_literal;
use crate::segment::lemma_common_prefix_len;
use crate::segment::lemma_joined_prefix;

verus! {

/// A literal tree stays literal when a literal path is inserted.
pub proof fn lemma_inserted_literal(tree: NodeModel, path: Seq<char>)
    requires
        tree.is_literal(),
        is_literal(path),
    ensures
        tree.inserted(path).is_literal(),
    decreases tree,
{
    let after = tree.inserted(path);
    let common = common_prefix_len(tree.segment, path) as int;
    let rest = path.skip(common);
    lemma_common_prefix_len(tree.segment, path);
    assert(NodeModel::leaf(rest).is_literal());
    assert(NodeModel::leaf(path).is_literal());
    if path.len() == 0 {
    } else if tree.segment.len() == 0 && tree.children.len() == 0 {
    } else if tree.segment == path {
    } else if common < tree.segment.len() {
        assert(tree.lower_part(common).is_literal());
    } else {
        let i = first_taking(tree.children, rest[0], false);
        lemma_first_taking(tree.children, rest[0], false);
        if i < tree.children.len() {
            lemma_inserted_literal(tree.children[i], rest);
        }
    }
}

/// The leaf made for a text whose characters but the last are literal
/// stops a lookup only for a key that begins the text or, where the text
/// ends with `*`, begins with the text without it.
proof fn lemma_leaf_holds_no_more(text: Seq<char>, key: Seq<char>)
    requires
        text.len() > 0,
        is_literal(text.drop_last()),
        NodeModel::leaf(text).is_wildcard() || NodeModel::leaf(text).holds(key),
    ensures
        key.is_prefix_of(text) || (text.last() == '*' && text.drop_last().is_prefix_of(key)),
{
    let leaf = NodeModel::leaf(text);
    let base = text.drop_last();
    if leaf.is_wildcard() {
        // The text is `*` alone.
        assert(base.is_prefix_of(key));
    } else if ends_with_marker(text) && text.len() > 2 {
        if key.len() <= base.len() {
            assert(key.is_prefix_of(text)) by {
                assert forall|k: int| 0 <= k < key.len() implies key[k] == text[k] by {
                    assert(key[k] == base.subrange(0, key.len() as int)[k]);
                }
            }
        }
    }
}

/// Nothing is held without a path. Let a path whose characters but the
/// last are literal be inserted into a literal tree. A key that the tree
/// holds afterwards was held before, or begins the path, or, where the
/// path ends with `*`, begins with the path without its `*`.
pub proof fn lemma_insert_holds_no_more(tree: NodeModel, path: Seq<char>, key: Seq<char>)
    requires
        tree.is_literal(),
        path.len() > 0,
        is_literal(path.drop_last()),
        tree.inserted(path).holds(key),
    ensures
        tree.holds(key) || key.is_prefix_of(path) || (path.last() == '*'
            && path.drop_last().is_prefix_of(key)),
    decreases tree,
{
    let after = tree.inserted(path);
    let common = common_prefix_len(tree.segment, path) as int;
    let rest = path.skip(common);
    let left = key.skip(common);
    lemma_common_prefix_len(tree.segment, path);
    if tree.segment.len() == 0 && tree.children.len() == 0 {
        // The key is empty or goes into the new leaf.
        if key.len() > 0 {
            assert(left =~= key);
            lemma_leaf_holds_no_more(path, key);
        }
    } else if tree.segment == path {
    } else if key.len() <= common {
        assert(key.is_prefix_of(tree.segment));
    } else if common < tree.segment.len() {
        // The node was split: the key goes into the lower part, which
        // holds what the node held, or into the new leaf.
        let i = first_taking(after.children, left[0], true);
        lemma_first_taking(after.children, left[0], true);
        assert forall|k: int| 0 <= k < common implies key[k] == path[k] by {
            assert(key[k] == after.segment[k]);
        }
        if i == 0 {
            assert(tree.lower_part(common).is_literal());
            lemma_lower_part_holds(tree, common, key);
        } else if rest.len() > 0 {
            assert(rest.drop_last() =~= path.drop_last().skip(common));
            lemma_leaf_holds_no_more(rest, left);
            lemma_joined_prefix(path, key, common);
        }
    } else if key.len() > tree.segment.len() {
        assert(rest.len() > 0) by {
            if path.len() == common {
                assert(tree.segment =~= path);
            }
        }
        assert(rest.drop_last() =~= path.drop_last().skip(common));
        let i = first_taking(tree.children, rest[0], false);
        let j = first_taking(after.children, left[0], true);
        lemma_first_taking(tree.children, rest[0], false);
        lemma_first_taking(after.children, left[0], true);
        assert forall|k: int| 0 <= k < common implies key[k] == path[k] by {
            assert(key[k] == tree.segment.subrange(0, common)[k]);
        }
        assert forall|k: int| 0 <= k < j && k != i implies !(#[trigger] tree.children[k]).takes(
            left[0],
            true,
        ) by {
            assert(!after.children[k].takes(left[0], true));
        }
        if j == i {
            // The key goes where the rest of the path went: into a child,
            // which is literal and so no wildcard node, or into the new
            // leaf.
            if i < tree.children.len() {
                let child = tree.children[i];
                lemma_inserted_starts_alike(child, rest);
                assert(child.is_literal());
                assert(child.segment[0] != '*');
                assert(after.children[i].takes(left[0], true));
                lemma_first_taking_unique(tree.children, left[0], true, i);
                lemma_insert_holds_no_more(child, rest, left);
            } else {
                lemma_leaf_holds_no_more(rest, left);
            }
            if !tree.holds(key) {
                lemma_joined_prefix(path, key, common);
            }
        } else {
            // The key goes into a child that the insertion left alone.
            if i < j {
                lemma_inserted_starts_alike(tree.children[i], rest);
                assert(tree.children[i].is_literal());
                assert(tree.children[i].segment[0] != '*');
                assert(!after.children[i].takes(left[0], true));
                assert(!tree.children[i].takes(left[0], true));
            }
            assert(j < tree.children.len());
            assert(after.children[j] == tree.children[j]);
            lemma_first_taking_unique(tree.children, left[0], true, j);
        }
    }
}

/// No key is held without a path. After literal paths were inserted into
/// the empty tree, the tree holds a key if and only if the key is empty
/// or one of the paths begins with it.
pub proof fn lemma_literal_tree_holds_prefixes(paths: Seq<Seq<char>>, key: Seq<char>)
    requires
        forall|i: int| 0 <= i < paths.len() ==> is_literal(#[trigger] paths[i]),
    ensures
        NodeModel::empty().inserted_all(paths).is_literal(),
        NodeModel::empty().inserted_all(paths).holds(key) <==> key.len() == 0 || exists|i: int|
            0 <= i < paths.len() && key.is_prefix_of(#[trigger] paths[i]),
    decreases paths.len(),
{
    let after = NodeModel::empty().inserted_all(paths);
    if paths.len() == 0 {
        if key.len() == 0 {
            assert(key.is_prefix_of(NodeModel::empty().segment));
        }
    } else {
        let front = paths.drop_last();
        let last = paths.last();
        let before = NodeModel::empty().inserted_all(front);
        assert forall|i: int| 0 <= i < front.len() implies is_literal(#[trigger] front[i]) by {
            assert(front[i] == paths[i]);
        }
        lemma_literal_tree_holds_prefixes(front, key);
        lemma_inserted_literal(before, last);
        if after.holds(key) && key.len() > 0 {
            // The key was held before, or begins the last path.
            if last.len() > 0 {
                lemma_insert_holds_no_more(before, last, key);
            }
            if key.is_prefix_of(last) {
                assert(key.is_prefix_of(paths[paths.len() - 1]));
            } else {
                let i = choose|i: int|
                    0 <= i < front.len() && key.is_prefix_of(#[trigger] front[i]);
                assert(key.is_prefix_of(paths[i]));
            }
        }
        if key.len() == 0 {
            assert(key.is_prefix_of(after.segment));
        } else if exists|i: int| 0 <= i < paths.len() && key.is_prefix_of(#[trigger] paths[i]) {
            let i = choose|i: int| 0 <= i < paths.len() && key.is_prefix_of(#[trigger] paths[i]);
            if i < front.len() {
                assert(key.is_prefix_of(front[i]));
                lemma_inserted_keeps_held(before, last, key);
            } else {
                lemma_inserted_path_is_held(before, last);
                lemma_prefix_of_held_is_held(after, last, key);
            }
        }
    }
}

} // verus!
