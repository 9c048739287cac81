use exec_shell::complete::{Trie, TrieNode};
use std::collections::BTreeSet;

fn chars(s: &str) -> Vec<char> {
    s.chars().collect()
}

fn text(line: &[char]) -> String {
    line.iter().collect()
}

fn texts(list: &[Vec<char>]) -> Vec<String> {
    list.iter().map(|line| text(line)).collect()
}

fn as_set(list: &[Vec<char>]) -> BTreeSet<String> {
    list.iter().map(|line| text(line)).collect()
}

fn set_of(words: &[&str]) -> BTreeSet<String> {
    words.iter().map(|w| w.to_string()).collect()
}

fn init_trie() -> Trie {
    let word1 = vec!['a', 'b', 'c'];
    let word2 = vec!['x', 'y', 'z'];
    let word3 = vec!['a', 'd', 'b'];
    let word4 = vec!['a', 'd'];
    let mut trie = Trie::new();

    trie.insert(&word1);
    trie.insert(&word2);
    trie.insert(&word3);
    trie.insert(&word4);

    trie
}

#[test]
fn test_insert() {
    let trie = init_trie();
    println!("{:?}", trie);
}

#[test]
fn test_find() {
    let trie = init_trie();
    let found = trie.find(&vec!['a', 'd']);
    println!("{:#?}", found);
    assert!(found.is_some());
    assert!(trie.find(&vec!['a', 'd', 'c']).is_none());
}

#[test]
fn test_match_prefix() {
    let trie = init_trie();
    let maching = trie.match_prefix(&vec!['a']);
    println!("{:#?}", maching);
}

#[test]
fn match_prefix_returns_the_words_with_the_prefix() {
    let trie = init_trie();
    let found = trie.match_prefix(&chars("a")).unwrap();
    assert_eq!(found.len(), 3);
    assert_eq!(as_set(&found), set_of(&["abc", "adb", "ad"]));
}

#[test]
fn match_prefix_of_an_unseen_prefix_is_none() {
    let trie = init_trie();
    assert!(trie.match_prefix(&chars("z")).is_none());
    assert!(trie.match_prefix(&chars("abd")).is_none());
    assert!(trie.match_prefix(&chars("abcd")).is_none());
}

#[test]
fn match_prefix_walks_depth_first_in_order_of_insertion() {
    let trie = init_trie();
    let found = trie.match_prefix(&chars("a")).unwrap();
    assert_eq!(texts(&found), vec!["abc", "ad", "adb"]);
    let all = trie.match_prefix(&chars("")).unwrap();
    assert_eq!(texts(&all), vec!["abc", "ad", "adb", "xyz"]);
}

#[test]
fn empty_prefix_returns_every_word() {
    let trie = init_trie();
    let found = trie.match_prefix(&chars("")).unwrap();
    assert_eq!(found.len(), 4);
    assert_eq!(as_set(&found), set_of(&["abc", "xyz", "adb", "ad"]));
}

#[test]
fn empty_prefix_in_an_empty_trie_returns_an_empty_list() {
    let trie = Trie::new();
    let found = trie.match_prefix(&chars(""));
    assert_eq!(found, Some(vec![]));
    assert!(trie.match_prefix(&chars("a")).is_none());
}

#[test]
fn prefix_that_is_a_leaf_returns_only_itself() {
    let trie = init_trie();
    let found = trie.match_prefix(&chars("abc")).unwrap();
    assert_eq!(texts(&found), vec!["abc"]);
    let found = trie.match_prefix(&chars("adb")).unwrap();
    assert_eq!(texts(&found), vec!["adb"]);
}

#[test]
fn prefix_that_is_a_word_with_extensions_returns_both() {
    let trie = init_trie();
    let found = trie.match_prefix(&chars("ad")).unwrap();
    assert_eq!(as_set(&found), set_of(&["ad", "adb"]));
    assert_eq!(found.len(), 2);
}

#[test]
fn a_path_that_is_no_word_is_not_returned() {
    let mut trie = Trie::new();
    trie.insert(&chars("abc"));
    let found = trie.match_prefix(&chars("ab")).unwrap();
    assert_eq!(texts(&found), vec!["abc"]);
    let found = trie.match_prefix(&chars("")).unwrap();
    assert_eq!(texts(&found), vec!["abc"]);
}

#[test]
fn inserting_twice_is_inserting_once() {
    let mut once = Trie::new();
    let mut twice = Trie::new();
    for word in ["abc", "xyz", "adb", "ad"] {
        once.insert(&chars(word));
        twice.insert(&chars(word));
        twice.insert(&chars(word));
    }
    for prefix in ["", "a", "ad", "adb", "x", "z", "abcd"] {
        assert_eq!(once.match_prefix(&chars(prefix)), twice.match_prefix(&chars(prefix)));
    }
    assert_eq!(twice.match_prefix(&chars("a")).unwrap().len(), 3);
}

#[test]
fn a_shorter_word_inserted_later_is_stored() {
    let mut trie = Trie::new();
    trie.insert(&chars("ls -l"));
    trie.insert(&chars("ls"));
    let found = trie.match_prefix(&chars("l")).unwrap();
    assert_eq!(texts(&found), vec!["ls", "ls -l"]);
}

#[test]
fn the_empty_word_can_be_stored() {
    let mut trie = Trie::new();
    trie.insert(&chars(""));
    trie.insert(&chars("a"));
    let found = trie.match_prefix(&chars("")).unwrap();
    assert_eq!(texts(&found), vec!["", "a"]);
    let found = trie.match_prefix(&chars("a")).unwrap();
    assert_eq!(texts(&found), vec!["a"]);
}

#[test]
fn find_returns_the_node_at_the_end_of_the_path() {
    let trie = init_trie();
    let node = trie.find(&chars("a")).unwrap();
    assert!(!node.is_end);
    assert_eq!(node.children.len(), 2);
    assert_eq!(node.children[0].0, 'b');
    assert_eq!(node.children[1].0, 'd');
    let node = trie.find(&chars("ad")).unwrap();
    assert!(node.is_end);
    assert_eq!(node.children.len(), 1);
    let root = trie.find(&chars("")).unwrap();
    assert!(!root.is_end);
    assert_eq!(root.children.len(), 2);
    assert!(trie.find(&chars("b")).is_none());
}

#[test]
fn node_new_is_unmarked_and_has_no_children() {
    let node = TrieNode::new();
    assert!(!node.is_end);
    assert!(node.children.is_empty());
    assert_eq!(node.position('a'), None);
}

#[test]
fn node_insert_adds_a_missing_edge_once() {
    let mut node = TrieNode::new();
    node.insert('a');
    node.insert('b');
    node.insert('a');
    assert_eq!(node.children.len(), 2);
    assert_eq!(node.position('a'), Some(0));
    assert_eq!(node.position('b'), Some(1));
    assert_eq!(node.position('c'), None);
    assert!(!node.is_end);
    assert!(!node.children[0].1.is_end);
    assert!(node.children[0].1.children.is_empty());
}

#[test]
fn node_insert_from_stores_the_rest_of_a_word() {
    let mut node = TrieNode::new();
    node.insert_from(&chars("xab"), 1);
    let mut path = chars(">");
    let mut out = vec![chars("first")];
    node.collect(&mut path, &mut out);
    assert_eq!(texts(&out), vec!["first", ">ab"]);
    assert_eq!(path, chars(">"));
    node.insert_from(&chars("a"), 0);
    node.insert_from(&chars("b"), 1);
    let mut out = Vec::new();
    node.collect(&mut path, &mut out);
    assert_eq!(texts(&out), vec![">", ">a", ">ab"]);
}

#[test]
fn node_clone_copies_the_subtree() {
    let trie = init_trie();
    let node = trie.find(&chars("a")).unwrap();
    let mut copy = node.clone();
    assert_eq!(copy.is_end, node.is_end);
    assert_eq!(copy.children.len(), 2);
    let mut path = chars("a");
    let mut listed = Vec::new();
    copy.collect(&mut path, &mut listed);
    assert_eq!(texts(&listed), vec!["abc", "ad", "adb"]);
    copy.insert_from(&chars("e"), 0);
    assert_eq!(copy.children.len(), 3);
    assert_eq!(node.children.len(), 2);
    assert_eq!(as_set(&trie.match_prefix(&chars("a")).unwrap()), set_of(&["abc", "adb", "ad"]));
}
