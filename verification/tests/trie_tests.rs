use arena_trees::trie::grammar::{preprocess_char, Case, Grammar, GrammarError};
use arena_trees::trie::trie::{Trie, TrieError, TrieNode};

#[test]
fn test_grammar() {
    let g = Grammar::default();
    assert_eq!(g.seq().len(), 26);

    let g = Grammar::from(&"Aabcdefghijklmnopqrstuvwxyz", Case::Insensitive);
    assert_eq!(g.seq().len(), 26);

    let g = Grammar::from(&"Aabcdefghijklmnopqrstuvwxyz", Case::Sensitive);
    assert_eq!(g.seq().len(), 27);
}

#[test]
fn test_trie() {
    let mut trie = Trie::<()>::new(Grammar::default());

    assert!(trie.find("hello").is_none());
    assert_eq!(trie.len(), 0);

    assert!(trie.insert("hello", ()).is_ok());
    assert_eq!(trie.len(), 1);

    assert!(trie.find("hello").is_some());
    assert_eq!(trie.len(), 1);

    assert!(trie.insert("hello", ()).is_err());
    assert_eq!(trie.len(), 1);

    assert!(trie.delete("hello").is_ok());
    assert_eq!(trie.len(), 0);

    assert!(trie.delete("hello").is_err());
    assert_eq!(trie.len(), 0);
}

#[test]
fn grammar_indices_descend_from_the_greatest_symbol() {
    let g = Grammar::default();
    let symbols = g.seq();
    assert_eq!(symbols[0], 'z');
    assert_eq!(symbols[25], 'a');
    assert_eq!(g.idx('z'), Some(0));
    assert_eq!(g.idx('a'), Some(25));
    assert_eq!(g.idx('h'), Some(18));
    assert_eq!(g.to_indices("hello"), Ok(vec![18, 21, 14, 14, 11]));
}

#[test]
fn grammar_folds_case_when_insensitive() {
    let g = Grammar::default();
    assert_eq!(g.idx('H'), Some(18));
    assert_eq!(g.to_indices("HeLLo"), g.to_indices("hello"));
    assert_eq!(preprocess_char(&'Q', &Case::Insensitive), 'q');
    assert_eq!(preprocess_char(&'Q', &Case::Sensitive), 'Q');
    assert_eq!(preprocess_char(&'q', &Case::Insensitive), 'q');
    assert_eq!(preprocess_char(&'[', &Case::Insensitive), '[');
    assert_eq!(preprocess_char(&'@', &Case::Insensitive), '@');
}

#[test]
fn grammar_keeps_case_when_sensitive() {
    let g = Grammar::from("bBa", Case::Sensitive);
    assert_eq!(g.seq(), vec!['b', 'a', 'B']);
    assert_eq!(g.idx('B'), Some(2));
    assert_eq!(g.idx('b'), Some(0));
    assert_eq!(g.idx('A'), None);
}

#[test]
fn grammar_orders_by_the_raw_symbol_before_folding() {
    // 'a' is greater than 'B', so it comes first although 'b' follows 'a'.
    let g = Grammar::from("Ba", Case::Insensitive);
    assert_eq!(g.seq(), vec!['a', 'b']);
    let g = Grammar::from("ba", Case::Insensitive);
    assert_eq!(g.seq(), vec!['b', 'a']);
}

#[test]
fn grammar_drops_repeated_symbols() {
    let g = Grammar::from("abcabc", Case::Sensitive);
    assert_eq!(g.seq(), vec!['c', 'b', 'a']);
    let g = Grammar::from("", Case::Sensitive);
    assert_eq!(g.seq().len(), 0);
    assert_eq!(g.idx('a'), None);
}

#[test]
fn grammar_names_the_first_unknown_symbol() {
    let g = Grammar::default();
    assert_eq!(g.to_indices("he7l!o"), Err(GrammarError::InvalidSymbol('7')));
    assert_eq!(g.to_indices(""), Ok(vec![]));
    assert_eq!(g.idx('7'), None);
}

#[test]
fn trie_node_reports_payload_and_children() {
    let mut node = TrieNode::<u8>::new(3, None, 4);
    assert_eq!(node.id, 3);
    assert_eq!(node.arity, 4);
    assert_eq!(node.children, vec![None, None, None, None]);
    assert!(!node.is_terminal());
    assert!(node.is_leaf());
    assert!(node.can_delete());
    node.children[2] = Some(9);
    assert!(!node.is_leaf());
    assert!(!node.can_delete());
    let node = TrieNode::<u8>::new(4, Some(1), 2);
    assert!(node.is_terminal());
    assert!(node.is_leaf());
    assert!(!node.can_delete());
}

#[test]
fn trie_insert_then_find_returns_the_payload() {
    let mut trie = Trie::<i32>::new(Grammar::default());
    assert!(trie.is_empty());
    assert_eq!(trie.insert("car", 1), Ok(()));
    assert_eq!(trie.insert("cart", 2), Ok(()));
    assert_eq!(trie.insert("ca", 3), Ok(()));
    assert!(!trie.is_empty());
    assert_eq!(trie.len(), 3);
    assert_eq!(trie.find("car"), Some(1));
    assert_eq!(trie.find("cart"), Some(2));
    assert_eq!(trie.find("ca"), Some(3));
    assert_eq!(trie.find("c"), None);
    assert_eq!(trie.find("carts"), None);
    assert!(trie.contains("CAR"));
    assert!(!trie.contains("dog"));
}

#[test]
fn trie_second_insert_fails_and_keeps_the_first_payload() {
    let mut trie = Trie::<i32>::new(Grammar::default());
    assert_eq!(trie.insert("key", 1), Ok(()));
    assert_eq!(trie.insert("key", 2), Err(TrieError::AlreadyExists));
    assert_eq!(trie.insert("KEY", 3), Err(TrieError::AlreadyExists));
    assert_eq!(trie.len(), 1);
    assert_eq!(trie.find("key"), Some(1));
}

#[test]
fn trie_insert_or_update_returns_the_old_payload() {
    let mut trie = Trie::<i32>::new(Grammar::default());
    assert_eq!(trie.insert_or_update("key", 1), Ok(None));
    assert_eq!(trie.len(), 1);
    assert_eq!(trie.insert_or_update("key", 2), Ok(Some(1)));
    assert_eq!(trie.len(), 1);
    assert_eq!(trie.find("key"), Some(2));
}

#[test]
fn trie_insert_or_apply_combines_on_collision() {
    let mut trie = Trie::<i32>::new(Grammar::default());
    assert_eq!(trie.insert_or_apply("count", 1, |n| n + 10), Ok(None));
    assert_eq!(trie.find("count"), Some(1));
    assert_eq!(trie.insert_or_apply("count", 1, |n| n + 10), Ok(Some(1)));
    assert_eq!(trie.find("count"), Some(11));
    assert_eq!(trie.insert_or_apply("count", 5, |n| n * 2), Ok(Some(11)));
    assert_eq!(trie.find("count"), Some(22));
    assert_eq!(trie.len(), 1);
}

#[test]
fn trie_rejects_symbols_outside_the_alphabet() {
    let mut trie = Trie::<i32>::new(Grammar::default());
    assert_eq!(trie.insert("a b", 1), Err(TrieError::InvalidSymbol(' ')));
    assert_eq!(trie.insert_or_update("x1", 1), Err(TrieError::InvalidSymbol('1')));
    assert_eq!(trie.insert_or_apply("9", 1, |n| *n), Err(TrieError::InvalidSymbol('9')));
    assert_eq!(trie.len(), 0);
    assert_eq!(trie.find("a b"), None);
    assert!(!trie.contains("a b"));
    assert_eq!(trie.preprocess_seq("ab?"), Err(TrieError::InvalidSymbol('?')));
    assert_eq!(trie.preprocess_seq("az"), Ok(vec![25, 0]));
    // An empty trie holds no key, whatever the key is made of.
    assert_eq!(trie.delete("a b"), Err(TrieError::NotFound));
    assert_eq!(trie.insert("ab", 1), Ok(()));
    assert_eq!(trie.delete("a b"), Err(TrieError::InvalidSymbol(' ')));
    assert_eq!(trie.find("a b"), None);
    assert_eq!(trie.len(), 1);
}

#[test]
fn trie_delete_of_an_absent_key_fails() {
    let mut trie = Trie::<i32>::new(Grammar::default());
    assert_eq!(trie.delete("nothing"), Err(TrieError::NotFound));
    assert_eq!(trie.insert("cart", 1), Ok(()));
    assert_eq!(trie.delete("car"), Err(TrieError::NotFound));
    assert_eq!(trie.delete("carts"), Err(TrieError::NotFound));
    assert_eq!(trie.delete("dog"), Err(TrieError::NotFound));
    assert_eq!(trie.len(), 1);
    assert_eq!(trie.find("cart"), Some(1));
}

#[test]
fn trie_delete_of_the_sole_key_empties_the_trie() {
    let mut trie = Trie::<i32>::new(Grammar::default());
    assert_eq!(trie.insert("solo", 7), Ok(()));
    assert_eq!(trie.delete("solo"), Ok(Some(7)));
    assert_eq!(trie.len(), 0);
    assert!(trie.is_empty());
    assert_eq!(trie.delete("solo"), Err(TrieError::NotFound));
    assert_eq!(trie.find("solo"), None);
}

#[test]
fn trie_delete_keeps_the_keys_that_share_a_path() {
    let mut trie = Trie::<i32>::new(Grammar::default());
    assert_eq!(trie.insert("car", 1), Ok(()));
    assert_eq!(trie.insert("cart", 2), Ok(()));
    assert_eq!(trie.insert("cat", 3), Ok(()));
    assert_eq!(trie.delete("car"), Ok(Some(1)));
    assert_eq!(trie.find("car"), None);
    assert_eq!(trie.find("cart"), Some(2));
    assert_eq!(trie.find("cat"), Some(3));
    assert_eq!(trie.delete("cart"), Ok(Some(2)));
    assert_eq!(trie.find("cat"), Some(3));
    assert_eq!(trie.len(), 1);
}

#[test]
fn trie_delete_then_insert_restores_what_find_and_len_see() {
    let mut trie = Trie::<i32>::new(Grammar::default());
    assert_eq!(trie.insert("alpha", 1), Ok(()));
    assert_eq!(trie.insert("alps", 2), Ok(()));
    assert_eq!(trie.delete("alpha"), Ok(Some(1)));
    assert_eq!(trie.insert("alpha", 1), Ok(()));
    assert_eq!(trie.len(), 2);
    assert_eq!(trie.find("alpha"), Some(1));
    assert_eq!(trie.find("alps"), Some(2));
    assert_eq!(trie.find("alp"), None);
}

#[test]
fn trie_holds_the_empty_key_at_its_root() {
    let mut trie = Trie::<i32>::new(Grammar::default());
    assert_eq!(trie.insert("", 5), Ok(()));
    assert_eq!(trie.len(), 1);
    assert_eq!(trie.find(""), Some(5));
    assert_eq!(trie.insert("", 6), Err(TrieError::AlreadyExists));
    assert_eq!(trie.delete(""), Ok(Some(5)));
    assert_eq!(trie.len(), 0);
    assert_eq!(trie.insert("a", 1), Ok(()));
    assert_eq!(trie.find(""), None);
    assert_eq!(trie.find("a"), Some(1));
}

#[test]
fn trie_tells_case_apart_under_a_sensitive_grammar() {
    let mut trie = Trie::<i32>::new(Grammar::from("abAB", Case::Sensitive));
    assert_eq!(trie.insert("ab", 1), Ok(()));
    assert_eq!(trie.insert("AB", 2), Ok(()));
    assert_eq!(trie.len(), 2);
    assert_eq!(trie.find("ab"), Some(1));
    assert_eq!(trie.find("AB"), Some(2));
    assert_eq!(trie.find("aB"), None);
}
