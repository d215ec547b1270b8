use rand::distributions::Alphanumeric;
use rand::random;
use rand::Rng;
use trie_tree::trie_tree::TrieTree;

// Generate random alphanumeric string.
fn random_string() -> String {
    let length = random::<usize>() % 500 + 1;
    rand::thread_rng()
        .sample_iter(&Alphanumeric)
        .take(length)
        .collect::<String>()
}

#[test]
fn test_lcp() {
    let node_x = TrieTree::new_child("abcde");
    assert_eq!(node_x.path, "abcde");
    assert_eq!(node_x.longest_common_prefix("abchoge"), 3);
}

#[test]
fn test_lcp_root() {
    let node_x = TrieTree::new();
    assert_eq!(node_x.path, "");
    assert_eq!(node_x.longest_common_prefix("abchoge"), 0);
}

#[test]
fn test_find() {
    let mut tree = TrieTree::new();
    let keys = vec!["/", "to", "tea", "ted", "ten", "i", "in", "inn"];
    for key in &keys {
        tree.add(key);
    }
    for key in keys {
        assert!(tree.find(key));
    }
}

#[test]
fn test_find_random() {
    let mut tree = TrieTree::new();
    let count = 1000;
    let keys = (0..count).map(|_| random_string()).collect::<Vec<String>>();
    for key in &keys {
        tree.add(key);
    }
    for key in keys {
        assert!(tree.find(&key));
    }
}

#[test]
fn test_find_with_wildcard() {
    let mut tree = TrieTree::new();
    let paths = vec!["/", "/index.html", "/static/*"];
    for key in &paths {
        tree.add(key);
    }
    let queries = vec![
        "/",
        "/index.html",
        "/static/index.html",
        "/static/style.css",
        "/static/index.js",
    ];
    for query in &queries {
        assert!(tree.find(query));
    }
}
