use trie_tree::trie_tree::TrieTree;

fn shape(tree: &TrieTree) -> String {
    format!("{:?}", tree)
}

fn tree_of(paths: &[&str]) -> TrieTree {
    let mut tree = TrieTree::new();
    for path in paths {
        tree.add(path);
    }
    tree
}

#[test]
fn test_wildcard_below_root_slash() {
    let tree = tree_of(&["/", "/static/*"]);
    assert!(tree.find("/static/index.html"));
    assert!(tree.find("/static/style.css"));
    assert!(tree.find("/static/index.js"));
    assert_eq!(
        shape(&tree),
        "TrieTree { path: \"\", children: [TrieTree { path: \"/\", children: [\
         TrieTree { path: \"static/\", children: [TrieTree { path: \"*\", children: [] }] }] }] }"
    );
}

#[test]
fn test_split_on_shared_prefix() {
    let tree = tree_of(&["hoge", "hot"]);
    assert!(tree.find("hoge"));
    assert!(tree.find("hot"));
    assert_eq!(
        shape(&tree),
        "TrieTree { path: \"\", children: [TrieTree { path: \"ho\", children: [\
         TrieTree { path: \"ge\", children: [] }, TrieTree { path: \"t\", children: [] }] }] }"
    );
    // The key ends with the segment of the node that was split off.
    assert!(tree.find("ho"));
    assert!(tree.find("h"));
    assert!(tree.find("hog"));
    assert!(!tree.find("hox"));
    assert!(!tree.find("hoget"));
    assert!(!tree.find("x"));
}

#[test]
fn test_first_insert_makes_one_leaf() {
    let tree = tree_of(&["hoge"]);
    assert_eq!(
        shape(&tree),
        "TrieTree { path: \"\", children: [TrieTree { path: \"hoge\", children: [] }] }"
    );
    assert!(tree.find("hoge"));
    assert!(!tree.find("hogehoge"));
    assert!(!tree.find("oge"));
}

#[test]
fn test_insert_prefix_of_segment_splits() {
    let tree = tree_of(&["hoge", "ho"]);
    assert_eq!(
        shape(&tree),
        "TrieTree { path: \"\", children: [TrieTree { path: \"ho\", children: [\
         TrieTree { path: \"ge\", children: [] }, TrieTree { path: \"\", children: [] }] }] }"
    );
    assert!(tree.find("ho"));
    assert!(tree.find("hoge"));
}

#[test]
fn test_insert_below_full_segment_appends() {
    let tree = tree_of(&["to", "tea", "ted", "ten"]);
    assert_eq!(
        shape(&tree),
        "TrieTree { path: \"\", children: [TrieTree { path: \"t\", children: [\
         TrieTree { path: \"o\", children: [] }, \
         TrieTree { path: \"e\", children: [\
         TrieTree { path: \"a\", children: [] }, \
         TrieTree { path: \"d\", children: [] }, \
         TrieTree { path: \"n\", children: [] }] }] }] }"
    );
}

#[test]
fn test_unrelated_paths_become_siblings() {
    let tree = tree_of(&["/", "to", "i"]);
    assert_eq!(
        shape(&tree),
        "TrieTree { path: \"\", children: [TrieTree { path: \"/\", children: [] }, \
         TrieTree { path: \"to\", children: [] }, TrieTree { path: \"i\", children: [] }] }"
    );
}

#[test]
fn test_wildcard_leaf_shape() {
    let tree = tree_of(&["/static/*"]);
    assert_eq!(
        shape(&tree),
        "TrieTree { path: \"\", children: [TrieTree { path: \"/static/\", children: [\
         TrieTree { path: \"*\", children: [] }] }] }"
    );
}

#[test]
fn test_marker_alone_is_literal() {
    let tree = tree_of(&["/*"]);
    assert_eq!(
        shape(&tree),
        "TrieTree { path: \"\", children: [TrieTree { path: \"/*\", children: [] }] }"
    );
    assert!(tree.find("/*"));
    assert!(!tree.find("/x"));
    assert!(!tree.find("/index.html"));
}

#[test]
fn test_marker_alone_below_existing_node_is_literal() {
    let tree = tree_of(&["/static", "/static/*"]);
    assert_eq!(
        shape(&tree),
        "TrieTree { path: \"\", children: [TrieTree { path: \"/static\", children: [\
         TrieTree { path: \"/*\", children: [] }] }] }"
    );
    assert!(tree.find("/static/*"));
    assert!(!tree.find("/static/index.html"));
}

#[test]
fn test_star_alone_is_a_wildcard_node() {
    let tree = tree_of(&["*"]);
    assert_eq!(
        shape(&tree),
        "TrieTree { path: \"\", children: [TrieTree { path: \"*\", children: [] }] }"
    );
    assert!(tree.find("*"));
    assert!(tree.find("anything"));
    assert!(!tree.find(""));
}

#[test]
fn test_shortest_wildcard_path() {
    let tree = tree_of(&["a/*"]);
    assert_eq!(
        shape(&tree),
        "TrieTree { path: \"\", children: [TrieTree { path: \"a/\", children: [\
         TrieTree { path: \"*\", children: [] }] }] }"
    );
    assert!(tree.find("a/b"));
    assert!(tree.find("a/"));
    assert!(!tree.find("b/b"));
}

#[test]
fn test_wildcard_path_that_begins_with_star() {
    let tree = tree_of(&["*a/*"]);
    assert_eq!(
        shape(&tree),
        "TrieTree { path: \"\", children: [TrieTree { path: \"*a/\", children: [\
         TrieTree { path: \"*\", children: [] }] }] }"
    );
    assert!(tree.find("*a/b"));
}

#[test]
fn test_split_leaf_is_checked_for_the_marker() {
    // The rest of the new path, "tatic/*", ends with the marker.
    let tree = tree_of(&["/style.css", "/static/*"]);
    assert_eq!(
        shape(&tree),
        "TrieTree { path: \"\", children: [TrieTree { path: \"/st\", children: [\
         TrieTree { path: \"yle.css\", children: [] }, \
         TrieTree { path: \"atic/\", children: [TrieTree { path: \"*\", children: [] }] }] }] }"
    );
    assert!(tree.find("/style.css"));
    assert!(tree.find("/static/app.js"));
}

#[test]
fn test_existing_segment_is_not_checked_again() {
    // "/static/*x" is stored whole; a later split leaves "*x" behind, which
    // is no wildcard node.
    let tree = tree_of(&["/static/*x", "/static/a"]);
    assert_eq!(
        shape(&tree),
        "TrieTree { path: \"\", children: [TrieTree { path: \"/static/\", children: [\
         TrieTree { path: \"*x\", children: [] }, TrieTree { path: \"a\", children: [] }] }] }"
    );
    assert!(!tree.find("/static/b"));
    assert!(tree.find("/static/*x"));
}

#[test]
fn test_literal_sibling_before_wildcard_decides() {
    let tree = tree_of(&["/static/a", "/static/*"]);
    assert_eq!(
        shape(&tree),
        "TrieTree { path: \"\", children: [TrieTree { path: \"/static/\", children: [\
         TrieTree { path: \"a\", children: [] }, TrieTree { path: \"*\", children: [] }] }] }"
    );
    assert!(tree.find("/static/a"));
    assert!(tree.find("/static/b"));
    assert!(tree.find("/static/index.html"));
    // The child "a" comes first and is asked for "abc".
    assert!(!tree.find("/static/abc"));
}

#[test]
fn test_wildcard_before_literal_sibling_decides() {
    let tree = tree_of(&["/static/*", "/static/a"]);
    assert_eq!(
        shape(&tree),
        "TrieTree { path: \"\", children: [TrieTree { path: \"/static/\", children: [\
         TrieTree { path: \"*\", children: [] }, TrieTree { path: \"a\", children: [] }] }] }"
    );
    assert!(tree.find("/static/a"));
    assert!(tree.find("/static/abc"));
    assert!(tree.find("/static/b"));
}

#[test]
fn test_lookup_goes_on_before_the_segment_ends() {
    // A lookup drops the common prefix and goes on to the children even
    // where the segment was not used up.
    let tree = tree_of(&["/static/*"]);
    assert!(tree.find("/x"));
    assert!(tree.find("/st"));
    assert!(!tree.find("x"));
    let tree = tree_of(&["abcd", "abxy"]);
    assert!(tree.find("ax"));
    assert!(!tree.find("az"));
}
