use toolbox::anagram::search::{find_shortest_path_bewteen_words, search_with_policy};
use toolbox::anagram::tree::MismatchPolicy;
use toolbox::anagram::words::{get_swappable_indexes, new_string_from_swap};

fn differing_positions(p: &str, q: &str) -> usize {
    p.chars().zip(q.chars()).filter(|(x, y)| x != y).count()
}

fn assert_swap_path(path: &[String], start: &str, goal: &str) {
    assert!(!path.is_empty());
    assert_eq!(path[0], start);
    assert_eq!(path[path.len() - 1], goal);
    for pair in path.windows(2) {
        assert_eq!(pair[0].chars().count(), pair[1].chars().count());
        assert_eq!(differing_positions(&pair[0], &pair[1]), 2);
    }
}

#[test]
fn swap_exchanges_two_symbols() {
    assert_eq!(new_string_from_swap("abc", 0, 2), "cba");
    assert_eq!(new_string_from_swap("abc", 1, 1), "abc");
}

#[test]
fn full_scan_lists_differing_positions() {
    assert_eq!(get_swappable_indexes("abcd", "abdc", None), vec![2, 3]);
    assert_eq!(get_swappable_indexes("abcd", "abcd", None), Vec::<usize>::new());
}

#[test]
fn narrowing_keeps_candidates_that_still_differ() {
    assert_eq!(get_swappable_indexes("abcd", "dcba", Some(vec![3, 0, 3])), vec![3, 0, 3]);
    assert_eq!(get_swappable_indexes("abcd", "abdc", Some(vec![0, 2])), vec![2]);
}

#[test]
fn search_of_a_three_cycle_takes_two_swaps() {
    let path = find_shortest_path_bewteen_words("abc", "bca");
    assert_eq!(path.len(), 3);
    assert_swap_path(&path, "abc", "bca");
}

#[test]
fn search_with_one_swap() {
    let path = find_shortest_path_bewteen_words("aab", "aba");
    assert_eq!(path, vec!["aab".to_string(), "aba".to_string()]);
}

#[test]
fn search_from_a_word_to_itself() {
    let path = find_shortest_path_bewteen_words("listen", "listen");
    assert_eq!(path, vec!["listen".to_string()]);
}

#[test]
fn narrowing_finds_the_same_path() {
    let full = search_with_policy("listen", "silent", MismatchPolicy::FullScan);
    let narrowed = search_with_policy("listen", "silent", MismatchPolicy::Narrowing);
    assert_eq!(full, narrowed);
    assert_swap_path(&full, "listen", "silent");
}

fn brute_force_distance(start: &str, goal: &str) -> usize {
    let first: Vec<char> = start.chars().collect();
    let last: Vec<char> = goal.chars().collect();
    let mut seen = vec![first.clone()];
    let mut layer = vec![first];
    let mut distance = 0;
    loop {
        if layer.contains(&last) {
            return distance;
        }
        let mut next = Vec::new();
        for word in &layer {
            for i in 0..word.len() {
                for j in (i + 1)..word.len() {
                    let mut other = word.clone();
                    other.swap(i, j);
                    if !seen.contains(&other) {
                        seen.push(other.clone());
                        next.push(other);
                    }
                }
            }
        }
        layer = next;
        distance += 1;
    }
}

fn permutations(word: &str) -> Vec<String> {
    let chars: Vec<char> = word.chars().collect();
    if chars.len() <= 1 {
        return vec![word.to_string()];
    }
    let mut all = Vec::new();
    for k in 0..chars.len() {
        let mut rest = chars.clone();
        let head = rest.remove(k);
        let rest: String = rest.into_iter().collect();
        for tail in permutations(&rest) {
            let mut made = String::new();
            made.push(head);
            made.push_str(&tail);
            if !all.contains(&made) {
                all.push(made);
            }
        }
    }
    all
}

#[test]
fn paths_between_words_of_distinct_letters_are_shortest() {
    for start in ["a", "ab", "abc", "abcd", "abcde"] {
        for goal in permutations(start) {
            let path = find_shortest_path_bewteen_words(start, &goal);
            assert_swap_path(&path, start, &goal);
            assert_eq!(path.len() - 1, brute_force_distance(start, &goal));
        }
    }
}

#[test]
fn paths_between_words_with_repeated_letters_are_swap_paths() {
    for start in ["aab", "aabb", "aabcc", "abcab"] {
        for goal in permutations(start) {
            for policy in [MismatchPolicy::FullScan, MismatchPolicy::Narrowing] {
                let path = search_with_policy(start, &goal, policy);
                assert_swap_path(&path, start, &goal);
                let mut seen = path.clone();
                seen.sort();
                seen.dedup();
                assert_eq!(seen.len(), path.len());
            }
        }
    }
}

#[test]
fn paths_of_at_most_two_swaps_are_shortest() {
    for start in ["aab", "aabb", "aabcc", "abcab", "aabbcc"] {
        for goal in permutations(start) {
            let distance = brute_force_distance(start, &goal);
            if distance <= 2 {
                for policy in [MismatchPolicy::FullScan, MismatchPolicy::Narrowing] {
                    let path = search_with_policy(start, &goal, policy);
                    assert_eq!(path.len(), distance + 1);
                }
            }
        }
    }
}

#[test]
fn two_swaps_between_words_with_repeated_letters() {
    let path = find_shortest_path_bewteen_words("aabb", "bbaa");
    assert_swap_path(&path, "aabb", "bbaa");
    assert_eq!(path.len(), 3);
}

#[test]
fn a_path_between_words_with_repeated_letters_that_is_not_shortest() {
    let path = find_shortest_path_bewteen_words("aabcc", "cbcaa");
    assert_swap_path(&path, "aabcc", "cbcaa");
    assert_eq!(path.len(), 5);
    assert_eq!(brute_force_distance("aabcc", "cbcaa"), 3);
}

#[test]
fn words_of_other_scripts() {
    let path = find_shortest_path_bewteen_words("åβç", "çåβ");
    assert_eq!(path.len(), 3);
    assert_swap_path(&path, "åβç", "çåβ");
}
