//! Laws of insertion: what a tree holds after a path was inserted.

use vstd::prelude::*;
use crate::laws::lookup::lemma_held_key_matches;
use crate::laws::lookup::lemma_lower_part_holds;
use crate::model::first_taking;
use crate::model::lemma_first_taking;
use crate::model::lemma_first_taking_unique;
use crate::model::NodeModel;
use crate::segment::common_prefix_len;
use crate::segment::ends_with_marker;
use crate::segment::lemma_common_prefix_len;
use crate::segment::lemma_common_prefix_len_of_prefix;
use crate::segment::lemma_common_prefix_len_unique;

verus! {

/// The leaf made for a text that is not empty begins as the text does,
/// holds the text, and is not changed when the text is inserted into it.
pub proof fn lemma_leaf(text: Seq<char>)
    requires
        text.len() > 0,
    ensures
        NodeModel::leaf(text).starts_with(text[0]),
        NodeModel::leaf(text).holds(text),
        NodeModel::leaf(text).inserted(text) == NodeModel::leaf(text),
        NodeModel::leaf(text).well_formed(),
{
    let leaf = NodeModel::leaf(text);
    if ends_with_marker(text) && text.len() > 2 {
        // The leaf is the text without its `*`, above a wildcard node.
        let star = NodeModel::wildcard();
        let rest = text.skip(leaf.segment.len() as int);
        assert(leaf.segment.is_prefix_of(text));
        assert(leaf.children =~= seq![star]);
        assert(rest =~= seq!['*']);
        lemma_common_prefix_len_of_prefix(leaf.segment, text);
        lemma_first_taking_unique(leaf.children, '*', true, 0);
        lemma_first_taking_unique(leaf.children, '*', false, 0);
        assert(star.inserted(rest) == star);
        assert(leaf.children.update(0, star) =~= leaf.children);
        assert(star.well_formed());
    } else {
        assert(text.is_prefix_of(text));
    }
}

/// Where a path is inserted into a node whose segment begins as the path
/// does, the node's segment still begins so afterwards.
pub proof fn lemma_inserted_starts_alike(tree: NodeModel, path: Seq<char>)
    requires
        path.len() > 0,
        tree.starts_with(path[0]),
    ensures
        tree.inserted(path).starts_with(path[0]),
        tree.is_wildcard() ==> tree.inserted(path).is_wildcard(),
{
    lemma_common_prefix_len(tree.segment, path);
    let common = common_prefix_len(tree.segment, path) as int;
    if common == 0 {
        assert(tree.segment[0] == path[0]);
    }
}

/// After a path that is not empty was inserted, the tree holds it.
pub proof fn lemma_inserted_path_is_held(tree: NodeModel, path: Seq<char>)
    requires
        path.len() > 0,
    ensures
        tree.inserted(path).holds(path),
    decreases tree,
{
    let after = tree.inserted(path);
    let common = common_prefix_len(tree.segment, path) as int;
    let rest = path.skip(common);
    lemma_common_prefix_len(tree.segment, path);
    if tree.segment.len() == 0 && tree.children.len() == 0 {
        // The new leaf is the only child, and holds the path.
        lemma_leaf(path);
        assert(rest =~= path);
        assert(after.segment.is_prefix_of(path));
        lemma_first_taking_unique(after.children, path[0], true, 0);
    } else if tree.segment == path {
        assert(path.is_prefix_of(path));
    } else if common < tree.segment.len() {
        if path.len() <= common {
            // The path ends where the node was split.
            assert(path.is_prefix_of(after.segment));
        } else {
            // The lower part begins with another character than the rest
            // of the path: the lookup stops there only at a wildcard node,
            // and else goes on to the new leaf.
            lemma_leaf(rest);
            assert(after.segment.is_prefix_of(path));
            if after.children[0].is_wildcard() {
                lemma_first_taking_unique(after.children, rest[0], true, 0);
            } else {
                lemma_first_taking_unique(after.children, rest[0], true, 1);
            }
        }
    } else {
        assert(tree.segment.is_prefix_of(path));
        assert(path.len() > tree.segment.len()) by {
            if path.len() == tree.segment.len() {
                assert(tree.segment =~= path);
            }
        }
        let i = first_taking(tree.children, rest[0], false);
        let j = first_taking(tree.children, rest[0], true);
        lemma_first_taking(tree.children, rest[0], false);
        lemma_first_taking(tree.children, rest[0], true);
        if j < i {
            // A wildcard node stands before the child that was chosen.
            assert(tree.children[j].is_wildcard());
            assert(after.children[j] == tree.children[j]);
            lemma_first_taking_unique(after.children, rest[0], true, j);
        } else if i < tree.children.len() {
            // The lookup chooses the child into which the rest went.
            assert(j == i) by {
                if i < j {
                    assert(!tree.children[i].takes(rest[0], true));
                }
            }
            lemma_inserted_starts_alike(tree.children[i], rest);
            lemma_inserted_path_is_held(tree.children[i], rest);
            lemma_first_taking_unique(after.children, rest[0], true, i);
        } else {
            // No child took the rest: the lookup comes to the new leaf.
            lemma_leaf(rest);
            lemma_first_taking_unique(after.children, rest[0], true, i);
        }
    }
}

/// A key that the tree holds is still held after any path was inserted.
pub proof fn lemma_inserted_keeps_held(tree: NodeModel, path: Seq<char>, key: Seq<char>)
    requires
        tree.holds(key),
    ensures
        tree.inserted(path).holds(key),
    decreases tree,
{
    let after = tree.inserted(path);
    let common = common_prefix_len(tree.segment, path) as int;
    let rest = path.skip(common);
    lemma_common_prefix_len(tree.segment, path);
    if path.len() == 0 {
    } else if tree.segment.len() == 0 && tree.children.len() == 0 {
    } else if tree.segment == path {
    } else if common < tree.segment.len() {
        // The node was split. A key that went on behind the common prefix
        // now goes on into the lower part, which is the first child.
        if key.len() <= common {
            assert(key.is_prefix_of(after.segment));
        } else {
            let left = key.skip(common);
            assert(after.segment.is_prefix_of(key)) by {
                if key.len() <= tree.segment.len() {
                    assert(after.segment =~= tree.segment.subrange(0, key.len() as int).subrange(
                        0,
                        common,
                    ));
                } else {
                    assert(after.segment =~= key.subrange(0, tree.segment.len() as int).subrange(
                        0,
                        common,
                    ));
                }
            }
            lemma_lower_part_holds(tree, common, key);
            assert(tree.segment[common] == left[0]) by {
                if key.len() <= tree.segment.len() {
                    assert(left[0] == tree.lower_part(common).segment.subrange(
                        0,
                        left.len() as int,
                    )[0]);
                } else {
                    assert(tree.lower_part(common).segment[0] == left.subrange(
                        0,
                        tree.segment.len() - common,
                    )[0]);
                }
            }
            lemma_first_taking_unique(after.children, left[0], true, 0);
        }
    } else if key.len() > tree.segment.len() {
        assert(rest.len() > 0) by {
            if path.len() == tree.segment.len() {
                assert(tree.segment =~= path);
            }
        }
        let left = key.skip(tree.segment.len() as int);
        let i = first_taking(tree.children, rest[0], false);
        let j = first_taking(tree.children, left[0], true);
        lemma_first_taking(tree.children, rest[0], false);
        lemma_first_taking(tree.children, left[0], true);
        if i < tree.children.len() {
            // The rest of the path went into child `i`; the key was
            // handed to child `j`.
            let child = tree.children[i];
            lemma_inserted_starts_alike(child, rest);
            if i < j {
                // Child `i` did not take the key before. It does so now
                // only if the split has made a wildcard node of it.
                if child.inserted(rest).is_wildcard() {
                    lemma_first_taking_unique(after.children, left[0], true, i);
                } else {
                    assert(after.children[j] == tree.children[j]);
                    lemma_first_taking_unique(after.children, left[0], true, j);
                }
            } else if i == j {
                lemma_first_taking_unique(after.children, left[0], true, i);
                if !child.is_wildcard() {
                    lemma_inserted_keeps_held(child, rest, left);
                }
            } else {
                assert(after.children[j] == tree.children[j]);
                lemma_first_taking_unique(after.children, left[0], true, j);
            }
        } else {
            // The new leaf stands behind the child that holds the key.
            assert(after.children[j] == tree.children[j]);
            lemma_first_taking_unique(after.children, left[0], true, j);
        }
    }
}

/// Inserting a path a second time changes nothing.
pub proof fn lemma_inserted_twice(tree: NodeModel, path: Seq<char>)
    ensures
        tree.inserted(path).inserted(path) == tree.inserted(path),
    decreases tree,
{
    let after = tree.inserted(path);
    let common = common_prefix_len(tree.segment, path) as int;
    let rest = path.skip(common);
    lemma_common_prefix_len(tree.segment, path);
    if path.len() == 0 {
    } else if tree.segment.len() == 0 && tree.children.len() == 0 {
        // The second insertion goes into the leaf that the first one made.
        lemma_leaf(path);
        lemma_common_prefix_len_unique(after.segment, path, 0);
        assert(path.skip(0) =~= path);
        lemma_first_taking_unique(after.children, path[0], false, 0);
        assert(after.children.update(0, after.children[0]) =~= after.children);
    } else if tree.segment == path {
    } else if common < tree.segment.len() {
        if path.len() <= common {
            // The split has left the path as the node's segment.
            assert(after.segment =~= path);
        } else {
            // The second insertion goes into the leaf behind the lower part.
            lemma_leaf(rest);
            assert(after.segment.is_prefix_of(path));
            lemma_common_prefix_len_of_prefix(after.segment, path);
            lemma_first_taking_unique(after.children, rest[0], false, 1);
            assert(after.children.update(1, after.children[1]) =~= after.children);
        }
    } else {
        let i = first_taking(tree.children, rest[0], false);
        lemma_first_taking(tree.children, rest[0], false);
        assert(rest.len() > 0) by {
            if path.len() == tree.segment.len() {
                assert(tree.segment =~= path);
            }
        }
        if i < tree.children.len() {
            lemma_inserted_starts_alike(tree.children[i], rest);
            lemma_inserted_twice(tree.children[i], rest);
            lemma_first_taking_unique(after.children, rest[0], false, i);
            assert(after.children.update(i, after.children[i]) =~= after.children);
        } else {
            lemma_leaf(rest);
            lemma_first_taking_unique(after.children, rest[0], false, i);
            assert(after.children.update(i, after.children[i]) =~= after.children);
        }
    }
}

/// Inserting a path keeps a tree well formed.
pub proof fn lemma_inserted_well_formed(tree: NodeModel, path: Seq<char>)
    requires
        tree.well_formed(),
    ensures
        tree.inserted(path).well_formed(),
    decreases tree,
{
    let after = tree.inserted(path);
    let common = common_prefix_len(tree.segment, path) as int;
    let rest = path.skip(common);
    lemma_common_prefix_len(tree.segment, path);
    if path.len() == 0 {
    } else if tree.segment.len() == 0 && tree.children.len() == 0 {
        lemma_leaf(path);
    } else if tree.segment == path {
    } else if common < tree.segment.len() {
        assert(tree.lower_part(common).well_formed());
        if rest.len() > 0 {
            lemma_leaf(rest);
        } else {
            assert(NodeModel::leaf(rest).well_formed());
        }
    } else {
        let i = first_taking(tree.children, rest[0], false);
        lemma_first_taking(tree.children, rest[0], false);
        assert(rest.len() > 0) by {
            if path.len() == tree.segment.len() {
                assert(tree.segment =~= path);
            }
        }
        if i < tree.children.len() {
            lemma_inserted_starts_alike(tree.children[i], rest);
            lemma_inserted_well_formed(tree.children[i], rest);
        } else {
            lemma_leaf(rest);
        }
    }
}

/// Insertion is idempotent: a second insertion of a path leaves the tree
/// as the first one left it, and the path, if it is not empty, matched.
pub proof fn lemma_insertion_is_idempotent(tree: NodeModel, path: Seq<char>)
    ensures
        tree.inserted(path).inserted(path) == tree.inserted(path),
        path.len() > 0 ==> tree.inserted(path).inserted(path).matches(path),
{
    lemma_inserted_twice(tree, path);
    if path.len() > 0 {
        lemma_inserted_path_is_held(tree, path);
        lemma_held_key_matches(tree.inserted(path), path);
    }
}

/// Every path that was inserted is found. After any number of paths were
/// inserted, in any order and into any tree, each of them that is not
/// empty is held, and so matched by a lookup.
pub proof fn lemma_every_inserted_path_matches(tree: NodeModel, paths: Seq<Seq<char>>, i: int)
    requires
        0 <= i < paths.len(),
        paths[i].len() > 0,
    ensures
        tree.inserted_all(paths).holds(paths[i]),
        tree.inserted_all(paths).matches(paths[i]),
    decreases paths.len(),
{
    let before = tree.inserted_all(paths.drop_last());
    if i == paths.len() - 1 {
        lemma_inserted_path_is_held(before, paths[i]);
    } else {
        assert(paths.drop_last()[i] == paths[i]);
        lemma_every_inserted_path_matches(tree, paths.drop_last(), i);
        lemma_inserted_keeps_held(before, paths.last(), paths[i]);
    }
    lemma_held_key_matches(tree.inserted_all(paths), paths[i]);
}

} // verus!
