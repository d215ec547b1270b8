//! The mathematical model of a prefix tree: what a tree is, what inserting
//! a path makes of it, and which keys it matches.

use vstd::prelude::*;
use crate::segment::common_prefix_len;
use crate::segment::ends_with_marker;
use crate::segment::is_literal;

verus! {

/// A node of the tree as a mathematical value: the text of its segment and
/// its children in the order in which they were created.
pub struct NodeModel {
    pub segment: Seq<char>,
    pub children: Seq<NodeModel>,
}

/// `i` is the index of the first of `children` that takes `c` (see
/// [`NodeModel::takes`]), or their number if none does.
pub open spec fn is_first_taking(children: Seq<NodeModel>, c: char, wild: bool, i: int) -> bool {
    &&& 0 <= i <= children.len()
    &&& i < children.len() ==> children[i].takes(c, wild)
    &&& forall|j: int| 0 <= j < i ==> !(#[trigger] children[j]).takes(c, wild)
}

/// The index of the first of `children` that takes `c`, or their number if
/// none does.
pub open spec fn first_taking(children: Seq<NodeModel>, c: char, wild: bool) -> int
    decreases children.len(),
{
    if children.len() == 0 || children[0].takes(c, wild) {
        0
    } else {
        1 + first_taking(children.drop_first(), c, wild)
    }
}

impl NodeModel {
    /// The tree that holds nothing: an empty segment and no children.
    pub open spec fn empty() -> NodeModel {
        NodeModel { segment: Seq::empty(), children: Seq::empty() }
    }

    /// A node with the segment `*` and no children.
    pub open spec fn wildcard() -> NodeModel {
        NodeModel { segment: seq!['*'], children: Seq::empty() }
    }

    /// The node's segment is the single character `*`: a lookup that comes
    /// upon it among the children of a node succeeds at once.
    pub open spec fn is_wildcard(self) -> bool {
        self.segment.len() == 1 && self.segment[0] == '*'
    }

    /// The node's segment begins with `c`.
    pub open spec fn starts_with(self, c: char) -> bool {
        self.segment.len() > 0 && self.segment[0] == c
    }

    /// Whether a scan over the children stops at this node for a remainder
    /// that begins with `c`. An insertion (`wild` false) stops at a node
    /// whose segment begins with `c`; a lookup (`wild` true) stops at a
    /// wildcard node too.
    pub open spec fn takes(self, c: char, wild: bool) -> bool {
        self.starts_with(c) || (wild && self.is_wildcard())
    }

    /// The lower part of the node: the node without the first `n`
    /// characters of its segment.
    pub open spec fn lower_part(self, n: int) -> NodeModel {
        NodeModel { segment: self.segment.skip(n), children: self.children }
    }

    /// The leaf made for `text`. A text that ends with `/*` and is longer
    /// than that marker gives a node without the final `*` whose only
    /// child is a wildcard node; any other text gives a node with that
    /// text and no children.
    pub open spec fn leaf(text: Seq<char>) -> NodeModel {
        if ends_with_marker(text) && text.len() > 2 {
            NodeModel { segment: text, children: Seq::empty() }.split_wildcard()
        } else {
            NodeModel { segment: text, children: Seq::empty() }
        }
    }

    /// The node with the `*` of a final `/*` taken off its segment and a
    /// wildcard node added behind its children; the node itself where its
    /// segment does not end with `/*`.
    pub open spec fn split_wildcard(self) -> NodeModel {
        if ends_with_marker(self.segment) {
            NodeModel {
                segment: self.segment.drop_last(),
                children: self.children.push(NodeModel::wildcard()),
            }
        } else {
            self
        }
    }

    /// The tree after `path` was inserted at this node.
    ///
    /// - An empty path changes nothing.
    /// - A node with an empty segment and no children gets a leaf for the
    ///   whole path as its only child.
    /// - A node whose segment is the path stays as it is.
    /// - Where the path leaves the segment before its end, the node is
    ///   split: it keeps the common prefix, and has two children, its
    ///   lower part, with the rest of the segment and the old children,
    ///   and a leaf for the rest of the path.
    /// - Else the segment is a proper prefix of the path: the rest of the
    ///   path is inserted at the first child whose segment begins with the
    ///   same character, or, if there is none, a leaf for it becomes the
    ///   last child.
    pub open spec fn inserted(self, path: Seq<char>) -> NodeModel
        decreases self,
    {
        let common = common_prefix_len(self.segment, path) as int;
        let rest = path.skip(common);
        let i = first_taking(self.children, rest[0], false);
        if path.len() == 0 {
            self
        } else if self.segment.len() == 0 && self.children.len() == 0 {
            NodeModel { segment: self.segment, children: seq![NodeModel::leaf(path)] }
        } else if self.segment == path {
            self
        } else if common < self.segment.len() {
            NodeModel {
                segment: self.segment.take(common),
                children: seq![self.lower_part(common), NodeModel::leaf(rest)],
            }
        } else if 0 <= i < self.children.len() {
            NodeModel {
                segment: self.segment,
                children: self.children.update(i, self.children[i].inserted(rest)),
            }
        } else {
            NodeModel {
                segment: self.segment,
                children: self.children.push(NodeModel::leaf(rest)),
            }
        }
    }

    /// The tree after the paths were inserted one after the other, the
    /// first of them first.
    pub open spec fn inserted_all(self, paths: Seq<Seq<char>>) -> NodeModel
        decreases paths.len(),
    {
        if paths.len() == 0 {
            self
        } else {
            self.inserted_all(paths.drop_last()).inserted(paths.last())
        }
    }

    /// Whether a lookup of `key` at this node succeeds.
    ///
    /// An empty key never matches. Else the key loses the longest prefix
    /// that it shares with the segment. If nothing is left, it matches.
    /// If something is left, the first child that is a wildcard node or
    /// whose segment begins with the first character left decides: a
    /// wildcard node matches, another child is asked for what is left.
    /// Without such a child the key does not match.
    pub open spec fn matches(self, key: Seq<char>) -> bool
        decreases self,
    {
        let rest = key.skip(common_prefix_len(self.segment, key) as int);
        let i = first_taking(self.children, rest[0], true);
        &&& key.len() > 0
        &&& rest.len() > 0 ==> {
            &&& 0 <= i < self.children.len()
            &&& self.children[i].is_wildcard() || self.children[i].matches(rest)
        }
    }

    /// Whether the tree holds `key`: the key ends within this node's
    /// segment, or it goes on behind the whole segment and the child that
    /// a lookup would choose for what is left is a wildcard node or holds
    /// what is left.
    ///
    /// A key that a tree holds is matched (if it is not empty), and stays
    /// held whatever is inserted afterwards; a lookup may match other keys
    /// too, as it does not ask that a segment be used up before it goes on
    /// to the children.
    pub open spec fn holds(self, key: Seq<char>) -> bool
        decreases self,
    {
        let rest = key.skip(self.segment.len() as int);
        let i = first_taking(self.children, rest[0], true);
        if key.len() <= self.segment.len() {
            key.is_prefix_of(self.segment)
        } else {
            &&& self.segment.is_prefix_of(key)
            &&& 0 <= i < self.children.len()
            &&& self.children[i].is_wildcard() || self.children[i].holds(rest)
        }
    }

    /// No segment in the tree holds a `*`.
    pub open spec fn is_literal(self) -> bool
        decreases self,
    {
        &&& is_literal(self.segment)
        &&& forall|i: int|
            0 <= i < self.children.len() ==> (#[trigger] self.children[i]).is_literal()
    }

    /// No two children of a node have segments that begin with the same
    /// character, at any depth.
    pub open spec fn well_formed(self) -> bool
        decreases self,
    {
        &&& forall|i: int, j: int|
            0 <= i < j < self.children.len() && self.children[i].segment.len() > 0
                && self.children[j].segment.len() > 0
                ==> self.children[i].segment[0] != self.children[j].segment[0]
        &&& forall|i: int|
            0 <= i < self.children.len() ==> (#[trigger] self.children[i]).well_formed()
    }
}

/// `first_taking` gives the first child that takes `c`.
pub proof fn lemma_first_taking(children: Seq<NodeModel>, c: char, wild: bool)
    ensures
        is_first_taking(children, c, wild, first_taking(children, c, wild)),
    decreases children.len(),
{
    if children.len() == 0 || children[0].takes(c, wild) {
    } else {
        let tail = children.drop_first();
        lemma_first_taking(tail, c, wild);
        let i = first_taking(children, c, wild);
        assert(i < children.len() ==> children[i] == tail[i - 1]);
        assert forall|j: int| 0 <= j < i implies !(#[trigger] children[j]).takes(c, wild) by {
            if j > 0 {
                assert(children[j] == tail[j - 1]);
            }
        }
    }
}

/// Only one index is that of the first child that takes `c`.
pub proof fn lemma_first_taking_unique(children: Seq<NodeModel>, c: char, wild: bool, i: int)
    requires
        is_first_taking(children, c, wild, i),
    ensures
        first_taking(children, c, wild) == i,
{
    lemma_first_taking(children, c, wild);
    let k = first_taking(children, c, wild);
    if k < i {
        assert(!children[k].takes(c, wild));
    } else if i < k {
        assert(!children[i].takes(c, wild));
    }
}

} // verus!
