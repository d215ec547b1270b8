//! The prefix tree: construction, insertion and lookup.

use vstd::prelude::*;
use vstd::std_specs::iter::IteratorSpec;
use crate::laws::insertion::lemma_inserted_path_is_held;
use crate::laws::insertion::lemma_inserted_well_formed;
use crate::laws::insertion::lemma_leaf;
use crate::laws::lookup::lemma_held_key_matches;
use crate::model::lemma_first_taking_unique;
use crate::model::NodeModel;
use crate::segment::common_prefix_len;
use crate::segment::includes_wildcard;
use crate::segment::is_common_prefix_len;
use crate::segment::lemma_common_prefix_len;
use crate::segment::lemma_common_prefix_len_unique;

verus! {

/// A node of the prefix tree; a tree is its root node. A node owns its
/// children, in the order in which they were created.
#[derive(Debug)]
pub struct TrieTree {
    pub path: String,
    children: Vec<Box<TrieTree>>,
}

impl View for TrieTree {
    type V = NodeModel;

    closed spec fn view(&self) -> NodeModel {
        self.model()
    }
}

impl TrieTree {
    /// The node as a mathematical value: its segment's characters and the
    /// models of its children, in their order.
    spec fn model(&self) -> NodeModel
        decreases self,
    {
        NodeModel {
            segment: self.path@,
            children: Seq::new(
                self.children.len() as nat,
                |i: int|
                    if 0 <= i < self.children.len() {
                        self.children[i].model()
                    } else {
                        NodeModel::empty()
                    },
            ),
        }
    }

    /// The empty tree.
    pub fn new() -> (tree: Self)
        ensures
            tree@ == NodeModel::empty(),
            tree@.well_formed(),
    {
        let tree = TrieTree { path: String::new(), children: Vec::new() };
        assert(tree@.segment =~= Seq::empty());
        assert(tree@.children =~= Seq::empty());
        tree
    }

    /// Number of leading characters that this node's segment shares with
    /// `other` before their first mismatch, or before either of them ends.
    /// It is 0 where the segment is empty.
    pub fn longest_common_prefix(&self, other: &str) -> (pos: usize)
        ensures
            pos == common_prefix_len(self@.segment, other@),
            is_common_prefix_len(self@.segment, other@, pos as int),
    {
        let mut mine = self.path.as_str().chars();
        let mut theirs = other.chars();
        let limit: usize = other.unicode_len();
        let mut pos: usize = 0;
        loop
            invariant_except_break
                mine.remaining() == self.path@.skip(pos as int),
                theirs.remaining() == other@.skip(pos as int),
            invariant
                limit == other@.len(),
                pos <= self.path@.len(),
                pos <= other@.len(),
                forall|i: int| 0 <= i < pos ==> self.path@[i] == other@[i],
            ensures
                is_common_prefix_len(self.path@, other@, pos as int),
            decreases self.path@.len() - pos,
        {
            let a = mine.next();
            let b = theirs.next();
            match (a, b) {
                (Some(x), Some(y)) => {
                    if x == y {
                        pos = pos + 1;
                    } else {
                        break;
                    }
                },
                _ => {
                    break;
                },
            }
        }
        proof {
            lemma_common_prefix_len_unique(self.path@, other@, pos as int);
        }
        pos
    }

    /// A new leaf for `path`, split where the path ends with the wildcard
    /// marker and is longer than it.
    pub fn new_child(path: &str) -> (child: Self)
        ensures
            child@ == NodeModel::leaf(path@),
            child@.well_formed(),
    {
        proof {
            if path@.len() > 0 {
                lemma_leaf(path@);
            }
        }
        let mut child = TrieTree { path: path.to_string(), children: Vec::new() };
        assert(child@.children =~= Seq::empty());
        if includes_wildcard(path) && path.unicode_len() > 2 {
            child.split_wildcard();
        }
        child
    }

    /// Takes the `*` off a segment that ends with `/*` and adds a wildcard
    /// node behind the children.
    fn split_wildcard(&mut self)
        ensures
            final(self)@ == old(self)@.split_wildcard(),
    {
        if includes_wildcard(self.path.as_str()) {
            let n: usize = self.path.as_str().unicode_len();
            let trimmed = self.path.as_str().substring_char(0, n - 1).to_string();
            let wildcard = TrieTree { path: "*".to_string(), children: Vec::new() };
            proof {
                reveal_strlit("*");
                assert(wildcard@.segment =~= seq!['*']);
                assert(wildcard@.children =~= Seq::empty());
            }
            self.path = trimmed;
            self.children.push(Box::new(wildcard));
            assert(self@.children =~= old(self)@.children.push(NodeModel::wildcard()));
        }
    }

    /// Whether the node's segment is the single character `*`.
    fn is_wildcard(&self) -> (wild: bool)
        ensures
            wild == self@.is_wildcard(),
    {
        let mut chars = self.path.as_str().chars();
        let first = chars.next();
        let second = chars.next();
        first == Some('*') && second.is_none()
    }

    /// Whether the node's segment begins with `c`.
    fn starts_with(&self, c: char) -> (starts: bool)
        ensures
            starts == self@.starts_with(c),
    {
        let mut chars = self.path.as_str().chars();
        match chars.next() {
            Some(first) => first == c,
            None => false,
        }
    }

    /// Inserts `new_path` into the tree: see [`NodeModel::inserted`]. An
    /// empty path changes nothing. A well-formed tree stays well formed,
    /// and a path that is not empty is held and matched afterwards.
    pub fn add(&mut self, new_path: &str)
        ensures
            final(self)@ == old(self)@.inserted(new_path@),
            old(self)@.well_formed() ==> final(self)@.well_formed(),
            new_path@.len() > 0 ==> final(self)@.holds(new_path@) && final(self)@.matches(
                new_path@,
            ),
        decreases *old(self),
    {
        proof {
            if self@.well_formed() {
                lemma_inserted_well_formed(self@, new_path@);
            }
            if new_path@.len() > 0 {
                lemma_inserted_path_is_held(self@, new_path@);
                lemma_held_key_matches(self@.inserted(new_path@), new_path@);
            }
        }
        let new_len: usize = new_path.unicode_len();
        if new_len == 0 {
            return;
        }
        let path_len: usize = self.path.as_str().unicode_len();
        if path_len == 0 && self.children.len() == 0 {
            self.children.push(Box::new(TrieTree::new_child(new_path)));
            assert(self@.children =~= seq![NodeModel::leaf(new_path@)]);
            return;
        }
        let lcp = self.longest_common_prefix(new_path);
        proof {
            lemma_common_prefix_len(self@.segment, new_path@);
        }
        if lcp == path_len && lcp == new_len {
            assert(self@.segment =~= new_path@);
            return;
        }
        let new_path_remaining = new_path.substring_char(lcp, new_len);
        if path_len > lcp {
            let common_prefix = self.path.as_str().substring_char(0, lcp).to_string();
            let path_remaining = self.path.as_str().substring_char(lcp, path_len).to_string();
            let mut moved: Vec<Box<TrieTree>> = Vec::new();
            core::mem::swap(&mut self.children, &mut moved);
            let old_node = TrieTree { path: path_remaining, children: moved };
            assert(old_node@.children =~= old(self)@.children);
            self.path = common_prefix;
            self.children.push(Box::new(old_node));
            self.children.push(Box::new(TrieTree::new_child(new_path_remaining)));
            assert(old_node@ == old(self)@.lower_part(lcp as int));
            assert(self@.children =~= seq![old_node@, NodeModel::leaf(new_path_remaining@)]);
        } else {
            let first = new_path_remaining.get_char(0);
            let mut i: usize = 0;
            while i < self.children.len()
                invariant
                    0 <= i <= self.children.len(),
                    *self == *old(self),
                    new_path@.len() > 0,
                    self@.well_formed() ==> self@.inserted(new_path@).well_formed(),
                    self@.inserted(new_path@).holds(new_path@),
                    self@.inserted(new_path@).matches(new_path@),
                    !(self@.segment.len() == 0 && self@.children.len() == 0),
                    self@.segment != new_path@,
                    common_prefix_len(self@.segment, new_path@) == self@.segment.len(),
                    new_path_remaining@ == new_path@.skip(self@.segment.len() as int),
                    new_path_remaining@.len() > 0,
                    first == new_path_remaining@[0],
                    forall|j: int|
                        0 <= j < i ==> !(#[trigger] self@.children[j]).takes(first, false),
                decreases self.children.len() - i,
            {
                if self.children[i].starts_with(first) {
                    proof {
                        lemma_first_taking_unique(self@.children, first, false, i as int);
                    }
                    self.children[i].add(new_path_remaining);
                    assert(self@.children =~= old(self)@.children.update(
                        i as int,
                        old(self)@.children[i as int].inserted(new_path_remaining@),
                    ));
                    return;
                }
                i = i + 1;
            }
            proof {
                lemma_first_taking_unique(self@.children, first, false, i as int);
            }
            self.children.push(Box::new(TrieTree::new_child(new_path_remaining)));
            assert(self@.children =~= old(self)@.children.push(
                NodeModel::leaf(new_path_remaining@),
            ));
        }
    }

    /// Whether the tree matches `key`: see [`NodeModel::matches`]. An
    /// empty key is never matched; a key that the tree holds, and so every
    /// path that was inserted, is matched if it is not empty.
    pub fn find(&self, key: &str) -> (found: bool)
        ensures
            found == self@.matches(key@),
            key@.len() == 0 ==> !found,
            key@.len() > 0 && self@.holds(key@) ==> found,
        decreases self,
    {
        proof {
            if key@.len() > 0 && self@.holds(key@) {
                lemma_held_key_matches(self@, key@);
            }
        }
        let key_len: usize = key.unicode_len();
        if key_len == 0 {
            return false;
        }
        let lcp = self.longest_common_prefix(key);
        proof {
            lemma_common_prefix_len(self@.segment, key@);
        }
        if lcp == key_len {
            return true;
        }
        let key_remaining = key.substring_char(lcp, key_len);
        let first = key_remaining.get_char(0);
        let mut i: usize = 0;
        while i < self.children.len()
            invariant
                0 <= i <= self.children.len(),
                key@.len() > 0,
                self@.holds(key@) ==> self@.matches(key@),
                key_remaining@ == key@.skip(common_prefix_len(self@.segment, key@) as int),
                key_remaining@.len() > 0,
                first == key_remaining@[0],
                forall|j: int| 0 <= j < i ==> !(#[trigger] self@.children[j]).takes(first, true),
            decreases self.children.len() - i,
        {
            let child = &self.children[i];
            if child.is_wildcard() {
                proof {
                    lemma_first_taking_unique(self@.children, first, true, i as int);
                }
                return true;
            }
            if child.starts_with(first) {
                proof {
                    lemma_first_taking_unique(self@.children, first, true, i as int);
                }
                return child.find(key_remaining);
            }
            i = i + 1;
        }
        proof {
            lemma_first_taking_unique(self@.children, first, true, i as int);
        }
        false
    }

    /// A copy of the node and of all that is below it.
    fn duplicate(&self) -> (copy: Self)
        ensures
            copy@ == self@,
        decreases self,
    {
        let mut children: Vec<Box<TrieTree>> = Vec::new();
        let mut i: usize = 0;
        while i < self.children.len()
            invariant
                0 <= i <= self.children.len(),
                children.len() == i,
                forall|j: int| 0 <= j < i ==> (#[trigger] children[j])@ == self.children[j]@,
            decreases self.children.len() - i,
        {
            children.push(Box::new(self.children[i].duplicate()));
            i = i + 1;
        }
        let copy = TrieTree { path: self.path.clone(), children };
        assert(copy@.children =~= self@.children);
        copy
    }
}

impl Default for TrieTree {
    /// The empty tree.
    fn default() -> (tree: Self)
        ensures
            tree@ == NodeModel::empty(),
            tree@.well_formed(),
    {
        TrieTree::new()
    }
}

impl Clone for TrieTree {
    /// A copy of the tree that shares nothing with it.
    fn clone(&self) -> (copy: Self)
        ensures
            copy@ == self@,
    {
        self.duplicate()
    }
}

} // verus!
