use toolbox::anagram::path::{path_from_both_parent_mapping, path_from_parent_mapping, Direction};
use toolbox::anagram::search::{BidirectionalSearch, SearchState};
use toolbox::anagram::tree::{MismatchPolicy, SearchTree};
use toolbox::anagram::validate::{
    check_anagram, count_symbol, find_path_between_anagrams, normalize_word, remove_spaces,
    AnagramError,
};

#[test]
fn mismatched_multisets_are_reported() {
    assert_eq!(
        check_anagram("abc", "abd"),
        Err(AnagramError::MissingInSecond { symbol: 'c' })
    );
    assert_eq!(
        check_anagram("aab", "abb"),
        Err(AnagramError::CountMismatch { symbol: 'a', first: 2, second: 1 })
    );
    assert_eq!(find_path_between_anagrams("abc", "abd").ok(), None);
}

#[test]
fn unequal_lengths_are_rejected() {
    assert_eq!(check_anagram("ab", "abc"), Err(AnagramError::LengthMismatch));
    assert_eq!(find_path_between_anagrams("ab", "abc"), Err(AnagramError::LengthMismatch));
}

#[test]
fn anagrams_are_accepted_and_searched() {
    assert_eq!(check_anagram("listen", "silent"), Ok(()));
    assert_eq!(check_anagram("", ""), Ok(()));
    let path = find_path_between_anagrams("ab", "ba").unwrap();
    assert_eq!(path, vec!["ab".to_string(), "ba".to_string()]);
    assert_eq!(find_path_between_anagrams("", "").unwrap(), vec!["".to_string()]);
}

#[test]
fn words_are_normalized() {
    assert_eq!(normalize_word("Dormi Tory"), "dormitory");
    assert_eq!(remove_spaces(" a b  c "), "abc");
    assert_eq!(count_symbol(&vec!['a', 'b', 'a'], 'a'), 2);
}

#[test]
fn a_tree_starts_with_its_root() {
    let tree = SearchTree::new("abc", "cab", MismatchPolicy::FullScan);
    assert!(tree.has_pending());
    assert!(tree.contains("abc"));
    assert!(!tree.contains("cab"));
    assert_eq!(tree.position("abc"), Some(0));
    assert_eq!(tree.nodes[0].swappables, vec![0, 1, 2]);
}

#[test]
fn expansion_tries_the_pairs_in_order() {
    let mut tree = SearchTree::new("abc", "cab", MismatchPolicy::Narrowing);
    let far = SearchTree::new("zzz", "zzz", MismatchPolicy::FullScan);
    assert_eq!(tree.expand_next(&far), None);
    let words: Vec<&str> = tree.nodes.iter().map(|n| n.word.as_str()).collect();
    assert_eq!(words, vec!["abc", "bac", "cba", "acb"]);
    assert_eq!(tree.nodes[1].parent, Some(0));
    assert_eq!(tree.nodes[1].swappables, vec![0, 2]);
    assert_eq!(tree.nodes[2].swappables, vec![1, 2]);
    assert_eq!(tree.next, 1);
    let path = path_from_parent_mapping(&tree, &"acb".to_string(), Direction::Forward);
    assert_eq!(path, vec!["acb".to_string(), "abc".to_string()]);
    let back = path_from_parent_mapping(&tree, &"acb".to_string(), Direction::Backward);
    assert_eq!(back, vec!["abc".to_string(), "acb".to_string()]);
}

#[test]
fn expansion_stops_where_the_trees_meet() {
    let mut forward = SearchTree::new("abc", "bac", MismatchPolicy::FullScan);
    let backward = SearchTree::new("bac", "abc", MismatchPolicy::FullScan);
    assert_eq!(forward.expand_next(&backward), Some(1));
    assert_eq!(forward.nodes.len(), 2);
    let path = path_from_both_parent_mapping(&forward, &backward, &"bac".to_string());
    assert_eq!(path, vec!["abc".to_string(), "bac".to_string()]);
}

#[test]
fn the_engine_runs_round_by_round() {
    let mut search = BidirectionalSearch::new("abcd", "badc", MismatchPolicy::FullScan);
    let mut rounds = 0;
    let met = loop {
        rounds += 1;
        match search.advance() {
            SearchState::Running => {}
            SearchState::Met(word) => break word,
            SearchState::Exhausted => panic!("anagrams are always connected"),
        }
    };
    assert_eq!(rounds, 1);
    let path = path_from_both_parent_mapping(&search.forward, &search.backward, &met);
    assert_eq!(path.len(), 3);
    assert_eq!(path[0], "abcd");
    assert_eq!(path[2], "badc");
}
