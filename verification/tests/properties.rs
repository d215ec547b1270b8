use trie_tree::segment::includes_wildcard;
use trie_tree::trie_tree::TrieTree;

fn shape(tree: &TrieTree) -> String {
    format!("{:?}", tree)
}

// A fixed sequence of pairwise distinct alphanumeric strings.
fn fixed_strings(count: usize) -> Vec<String> {
    let alphabet: Vec<char> =
        "ABCDEFGHIJKLMNOPQRSTUVWXYZabcdefghijklmnopqrstuvwxyz0123456789".chars().collect();
    let mut state: u64 = 0x2545_F491_4F6C_DD1D;
    let mut strings: Vec<String> = Vec::new();
    while strings.len() < count {
        state = state.wrapping_mul(6364136223846793005).wrapping_add(1442695040888963407);
        let length = ((state >> 33) % 40 + 1) as usize;
        let mut text = String::new();
        for _ in 0..length {
            state = state.wrapping_mul(6364136223846793005).wrapping_add(1442695040888963407);
            text.push(alphabet[((state >> 33) % 62) as usize]);
        }
        if !strings.contains(&text) {
            strings.push(text);
        }
    }
    strings
}

#[test]
fn test_insert_twice_changes_nothing_more() {
    for path in ["hoge", "/", "/static/*", "/*", "*", "a"] {
        let mut tree = TrieTree::new();
        tree.add("hot");
        tree.add("/index.html");
        tree.add(path);
        let once = shape(&tree);
        assert!(tree.find(path));
        tree.add(path);
        assert_eq!(shape(&tree), once);
        assert!(tree.find(path));
    }
}

#[test]
fn test_insert_twice_into_empty_tree() {
    let mut tree = TrieTree::new();
    tree.add("tea");
    tree.add("tea");
    assert_eq!(
        shape(&tree),
        "TrieTree { path: \"\", children: [TrieTree { path: \"tea\", children: [] }] }"
    );
    assert!(tree.find("tea"));
}

#[test]
fn test_empty_key_is_never_found() {
    let mut tree = TrieTree::new();
    assert!(!tree.find(""));
    tree.add("");
    assert!(!tree.find(""));
    tree.add("/");
    tree.add("/static/*");
    assert!(!tree.find(""));
    tree.add("");
    assert!(!tree.find(""));
    tree.add("*");
    assert!(!tree.find(""));
}

#[test]
fn test_empty_path_changes_nothing() {
    let mut tree = TrieTree::new();
    tree.add("");
    assert_eq!(shape(&tree), "TrieTree { path: \"\", children: [] }");
    tree.add("hoge");
    tree.add("hot");
    let before = shape(&tree);
    tree.add("");
    assert_eq!(shape(&tree), before);
}

#[test]
fn test_empty_tree_finds_nothing() {
    let tree = TrieTree::new();
    assert!(!tree.find("/"));
    assert!(!tree.find("a"));
    assert!(!tree.find("*"));
}

#[test]
fn test_wildcard_covers_every_suffix() {
    let mut tree = TrieTree::new();
    tree.add("/");
    tree.add("/index.html");
    tree.add("/about");
    assert!(!tree.find("/static/index.html"));
    tree.add("/static/*");
    for suffix in ["index.html", "style.css", "index.js", "a", "*", "/", "a/b/c", "é"] {
        let key = format!("/static/{}", suffix);
        assert!(tree.find(&key));
    }
    assert!(tree.find("/index.html"));
    assert!(tree.find("/about"));
    assert!(!tree.find("/other/index.html"));
    assert!(!tree.find("index.html"));
}

#[test]
fn test_wildcard_stays_after_later_inserts() {
    let mut tree = TrieTree::new();
    tree.add("/static/*");
    tree.add("/static/app.js");
    tree.add("/stat");
    tree.add("/s");
    tree.add("/static/images/*");
    assert!(tree.find("/static/index.html"));
    assert!(tree.find("/static/app.js"));
    assert!(tree.find("/static/images/logo.png"));
    assert!(tree.find("/stat"));
    assert!(tree.find("/s"));
}

#[test]
fn test_every_inserted_string_is_found() {
    let keys = fixed_strings(1000);
    let mut tree = TrieTree::new();
    for key in &keys {
        tree.add(key);
    }
    for key in &keys {
        assert!(tree.find(key));
    }
}

#[test]
fn test_every_inserted_string_is_found_in_reverse_order() {
    let keys = fixed_strings(1000);
    let mut tree = TrieTree::new();
    for key in keys.iter().rev() {
        tree.add(key);
    }
    for key in &keys {
        assert!(tree.find(key));
    }
}

#[test]
fn test_every_inserted_string_is_found_at_each_step() {
    let keys = fixed_strings(60);
    let mut tree = TrieTree::new();
    for (count, key) in keys.iter().enumerate() {
        tree.add(key);
        for earlier in &keys[..=count] {
            assert!(tree.find(earlier));
        }
    }
}

#[test]
fn test_key_with_foreign_first_character_is_not_found() {
    let mut tree = TrieTree::new();
    for path in ["/", "/index.html", "/static/*", "to", "tea", "inn"] {
        tree.add(path);
        assert!(!tree.find("hoge"));
        assert!(!tree.find("x"));
        assert!(!tree.find("static/"));
    }
}

#[test]
fn test_insert_keeps_answer_for_other_first_character() {
    let mut tree = TrieTree::new();
    tree.add("hoge");
    tree.add("/static/*");
    let keys = ["hoge", "hot", "ho", "/static/a", "/x", "x", "hogehoge"];
    let before: Vec<bool> = keys.iter().map(|key| tree.find(key)).collect();
    tree.add("tea");
    tree.add("ten");
    let after: Vec<bool> = keys.iter().map(|key| tree.find(key)).collect();
    assert_eq!(before, vec![true, false, true, true, true, false, false]);
    assert_eq!(after, before);
}

#[test]
fn test_longest_common_prefix_values() {
    let node = TrieTree::new_child("abcde");
    assert_eq!(node.longest_common_prefix("abchoge"), 3);
    assert_eq!(node.longest_common_prefix("abcde"), 5);
    assert_eq!(node.longest_common_prefix("abcdefg"), 5);
    assert_eq!(node.longest_common_prefix("ab"), 2);
    assert_eq!(node.longest_common_prefix("xbcde"), 0);
    assert_eq!(node.longest_common_prefix(""), 0);
}

#[test]
fn test_longest_common_prefix_of_empty_segment() {
    let node = TrieTree::new();
    assert_eq!(node.longest_common_prefix("abchoge"), 0);
    assert_eq!(node.longest_common_prefix("/"), 0);
    assert_eq!(node.longest_common_prefix(""), 0);
}

#[test]
fn test_longest_common_prefix_counts_characters() {
    let node = TrieTree::new_child("h\u{e9}llo");
    assert_eq!(node.longest_common_prefix("h\u{e9}las"), 3);
    assert_eq!(node.longest_common_prefix("h\u{e8}"), 1);
}

#[test]
fn test_paths_with_wide_characters() {
    let mut tree = TrieTree::new();
    tree.add("/caf\u{e9}/menu");
    tree.add("/caf\u{e9}/\u{e9}t\u{e9}");
    tree.add("/caf\u{e8}");
    assert!(tree.find("/caf\u{e9}/menu"));
    assert!(tree.find("/caf\u{e9}/\u{e9}t\u{e9}"));
    assert!(tree.find("/caf\u{e8}"));
    assert!(!tree.find("/caf\u{e9}/\u{e8}"));
    assert_eq!(
        shape(&tree),
        "TrieTree { path: \"\", children: [TrieTree { path: \"/caf\", children: [\
         TrieTree { path: \"\u{e9}/\", children: [\
         TrieTree { path: \"menu\", children: [] }, \
         TrieTree { path: \"\u{e9}t\u{e9}\", children: [] }] }, \
         TrieTree { path: \"\u{e8}\", children: [] }] }] }"
    );
}

#[test]
fn test_includes_wildcard() {
    assert!(includes_wildcard("/static/*"));
    assert!(includes_wildcard("/*"));
    assert!(includes_wildcard("*/*"));
    assert!(!includes_wildcard("*"));
    assert!(!includes_wildcard("/"));
    assert!(!includes_wildcard(""));
    assert!(!includes_wildcard("/static/"));
    assert!(!includes_wildcard("/static*"));
    assert!(!includes_wildcard("/static/*x"));
    assert!(!includes_wildcard("/static/**"));
}

#[test]
fn test_new_child() {
    assert_eq!(shape(&TrieTree::new_child("abc")), "TrieTree { path: \"abc\", children: [] }");
    assert_eq!(shape(&TrieTree::new_child("")), "TrieTree { path: \"\", children: [] }");
    assert_eq!(shape(&TrieTree::new_child("*")), "TrieTree { path: \"*\", children: [] }");
    assert_eq!(shape(&TrieTree::new_child("/*")), "TrieTree { path: \"/*\", children: [] }");
    assert_eq!(
        shape(&TrieTree::new_child("/static/*")),
        "TrieTree { path: \"/static/\", children: [TrieTree { path: \"*\", children: [] }] }"
    );
    assert_eq!(
        shape(&TrieTree::new_child("//*")),
        "TrieTree { path: \"//\", children: [TrieTree { path: \"*\", children: [] }] }"
    );
}

#[test]
fn test_new_and_default_are_empty() {
    assert_eq!(shape(&TrieTree::new()), "TrieTree { path: \"\", children: [] }");
    assert_eq!(shape(&TrieTree::default()), "TrieTree { path: \"\", children: [] }");
}

#[test]
fn test_clone_is_a_separate_tree() {
    let mut tree = TrieTree::new();
    tree.add("hoge");
    tree.add("/static/*");
    let copy = tree.clone();
    assert_eq!(shape(&copy), shape(&tree));
    tree.add("hot");
    assert!(tree.find("hot"));
    assert!(!copy.find("hot"));
    assert!(copy.find("hoge"));
    assert!(copy.find("/static/index.html"));
}

#[test]
fn test_prefixes_of_inserted_paths_are_found() {
    let paths = ["hoge", "hot", "/index.html", "tea"];
    let mut tree = TrieTree::new();
    for path in paths {
        tree.add(path);
    }
    for path in paths {
        for end in 1..=path.len() {
            assert!(tree.find(&path[..end]));
        }
    }
    assert!(!tree.find("hogex"));
    assert!(!tree.find("teas"));
    assert!(!tree.find("/index.htm1"));
}
