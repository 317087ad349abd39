use std::collections::BTreeSet;
use word_trie::game::most_frequent;
use word_trie::gamestate::View;
use word_trie::{GameController, GameState, GameWord, Trie, WordFrequencies};

fn build(words: &[&str]) -> Trie {
    let mut root = Trie::new_root();
    for w in words {
        root.add(w);
    }
    root
}

fn sorted(v: Vec<String>) -> Vec<String> {
    let mut v = v;
    v.sort();
    v
}

#[test]
fn reinserting_a_word_lists_it_once() {
    let once = build(&["abc", "ab"]);
    let thrice = build(&["abc", "ab", "abc", "abc"]);
    assert_eq!(sorted(once.get_all_words()), sorted(thrice.get_all_words()));
    assert_eq!(thrice.get_all_words().len(), 2);
}

#[test]
fn inserted_words_are_found_and_others_are_not() {
    let root = build(&["country", "county"]);
    assert!(root.has_word("country"));
    assert!(root.contains("country"));
    assert!(root.has_word("county"));
    assert!(root.contains("coun"));
    assert!(!root.has_word("coun"));
    assert!(!root.contains("counts"));
    assert!(!root.contains("x"));
    assert!(root.contains(""));
}

#[test]
fn listing_returns_the_inserted_set() {
    let words = ["aa", "ab", "abc", "ba", "bb", "bbc", "b"];
    let root = build(&words);
    let listed = root.get_all_words();
    assert_eq!(listed.len(), words.len());
    let got: BTreeSet<String> = listed.into_iter().collect();
    let want: BTreeSet<String> = words.iter().map(|w| w.to_string()).collect();
    assert_eq!(got, want);
}

#[test]
fn listing_order_is_children_then_node() {
    let root = build(&["a", "ab", "ac"]);
    assert_eq!(root.get_all_words(), vec!["ab".to_string(), "ac".to_string(), "a".to_string()]);
}

#[test]
fn listing_below_a_labelled_node_starts_with_its_label() {
    let mut node = Trie::new('x');
    node.add("yz");
    assert_eq!(node.get_all_words(), vec!["xyz".to_string()]);
}

#[test]
fn frequency_keys_have_the_requested_length() {
    let root = build(&["aa", "ab", "abc", "ba", "bb", "bbc"]);
    for k in 1..4usize {
        let table = root.get_all_substring_frequencies(k);
        for (key, _) in table.entries() {
            assert_eq!(key.chars().count(), k);
        }
    }
    assert_eq!(root.get_all_substring_frequencies(2).entries().len(), 5);
}

#[test]
fn frequency_of_single_characters() {
    let root = build(&["ab", "b"]);
    let table = root.get_all_substring_frequencies(1);
    // 'a': one child; 'b' below 'a': a word; 'b' at the top: a word.
    assert_eq!(table.get("a"), Some(&1));
    assert_eq!(table.get("b"), Some(&2));
    assert_eq!(table.get("c"), None);
}

#[test]
fn frequency_window_slides_along_a_path() {
    let root = build(&["abcd"]);
    let table = root.get_all_substring_frequencies(2);
    assert_eq!(table.get("ab"), Some(&1));
    assert_eq!(table.get("bc"), Some(&1));
    assert_eq!(table.get("cd"), Some(&1));
    assert_eq!(table.entries().len(), 3);
}

#[test]
fn frequency_length_beyond_every_word_or_zero_is_empty() {
    let root = build(&["abc", "de"]);
    assert_eq!(root.get_all_substring_frequencies(4).entries().len(), 0);
    assert_eq!(root.get_all_substring_frequencies(0).entries().len(), 0);
}

#[test]
fn frequency_counts_non_ascii_characters() {
    let root = build(&["\u{e9}t\u{e9}"]);
    let table = root.get_all_substring_frequencies(2);
    assert_eq!(table.get("\u{e9}t"), Some(&1));
    assert_eq!(table.get("t\u{e9}"), Some(&1));
}

#[test]
fn containing_search_excludes_beast() {
    let root = build(&["beast", "test", "tester", "best", "essen", "fries"]);
    let found = sorted(root.get_all_words_with_containing_substring("es"));
    assert_eq!(found, vec!["best", "essen", "fries", "test", "tester"]);
}

#[test]
fn containing_search_with_empty_target_lists_everything() {
    let root = build(&["ab", "c"]);
    assert_eq!(sorted(root.get_all_words_with_containing_substring("")), vec!["ab", "c"]);
    assert_eq!(root.get_all_words_with_containing_substring("zz").len(), 0);
}

#[test]
fn empty_tree_queries_are_empty() {
    let root = Trie::new_root();
    assert_eq!(root.get_all_words().len(), 0);
    assert_eq!(root.get_all_substring_frequencies(2).entries().len(), 0);
    assert_eq!(root.get_all_words_with_containing_substring("a").len(), 0);
    assert_eq!(root.print().len(), 0);
}

#[test]
fn empty_word_marks_the_root() {
    let mut root = Trie::new_root();
    root.add("");
    assert!(root.is_word);
    assert!(root.has_word(""));
    assert_eq!(root.get_all_words(), vec![String::new()]);
}

#[test]
fn get_word_changes_the_node_in_place() {
    let mut root = build(&["ab"]);
    assert!(root.get_word("zz").is_none());
    if let Some(n) = root.get_word("a") {
        n.is_word = true;
    }
    assert!(root.has_word("a"));
}

#[test]
fn get_child_finds_by_label() {
    let mut root = build(&["ab", "c"]);
    assert_eq!(root.get_child('c').map(|n| n.value), Some(Some('c')));
    assert!(root.get_child('b').is_none());
}

#[test]
fn count_nodes_counts_every_node() {
    let root = build(&["ab", "ac", "d"]);
    assert_eq!(root.count_nodes(), Some(5));
}

#[test]
fn print_draws_each_labelled_node() {
    let root = build(&["ab", "ac", "d"]);
    let lines = root.print();
    assert_eq!(
        lines,
        vec![
            "\u{251c}a ".to_string(),
            "\u{2502}\u{251c}b \u{2705} ab".to_string(),
            "\u{2502}\u{2514}c \u{2705} ac".to_string(),
            "\u{2514}d \u{2705} d".to_string(),
        ]
    );
}

#[test]
fn merge_adds_counts_of_shared_keys() {
    let a = WordFrequencies::single("ab".to_string(), 2).merge_with(&WordFrequencies::single("cd".to_string(), 1));
    let b = WordFrequencies::single("ab".to_string(), 3);
    let m = a.merge_with(&b);
    assert_eq!(m.get("ab"), Some(&5));
    assert_eq!(m.get("cd"), Some(&1));
    assert_eq!(m.entries().len(), 2);
    assert_eq!(WordFrequencies::new().get("ab"), None);
}

#[test]
fn most_frequent_orders_by_count_and_keeps_ties_in_order() {
    let es = vec![
        ("a".to_string(), 1usize),
        ("b".to_string(), 5),
        ("c".to_string(), 3),
        ("d".to_string(), 5),
    ];
    assert_eq!(most_frequent(&es, 3), vec![1, 3, 2]);
    assert_eq!(most_frequent(&es, 10), vec![1, 3, 2, 0]);
    assert_eq!(most_frequent(&es, 0), Vec::<usize>::new());
}

#[test]
fn new_game_masks_around_the_substring() {
    let state = GameState::new_game("es".to_string(), vec!["best".to_string(), "essen".to_string()]);
    assert_eq!(state.substring, Some("es".to_string()));
    assert!(matches!(state.view, View::PLAY));
    assert_eq!(state.words[0].masked_word, "_es_");
    assert_eq!(state.words[1].masked_word, "es___");
    assert!(!state.words[0].completed);
}

#[test]
fn init_state_shows_the_menu() {
    let state = GameState::init_state();
    assert!(state.substring.is_none());
    assert!(state.words.is_empty());
    assert!(matches!(state.view, View::MENU));
}

#[test]
fn new_completed_marks_the_word() {
    let w = GameWord { word: "best".to_string(), masked_word: "_es_".to_string(), completed: false };
    let done = w.new_completed();
    assert_eq!(done.word, "best");
    assert_eq!(done.masked_word, "_es_");
    assert!(done.completed);
}

#[test]
fn submit_guess_completes_matching_words_once() {
    let mut gc = GameController::new(Trie::new_root());
    gc.state = GameState::new_game("es".to_string(), vec!["best".to_string(), "test".to_string()]);
    assert!(gc.submit_guess(&"best".to_string()));
    assert!(gc.state.words[0].completed);
    assert!(!gc.state.words[1].completed);
    assert!(!gc.submit_guess(&"best".to_string()));
    assert!(!gc.submit_guess(&"rest".to_string()));
}

#[test]
fn start_random_picks_a_frequent_substring() {
    let root = build(&["tester", "testes", "attest", "bestow"]);
    let mut gc = GameController::new(root);
    let state = gc.start_random();
    assert!(matches!(state.view, View::PLAY));
    let sub = state.substring.clone().unwrap();
    assert_eq!(sub.chars().count(), 3);
    assert!(!state.words.is_empty());
    for w in &state.words {
        assert!(w.word.contains(&sub));
        assert_eq!(w.masked_word.chars().count(), w.word.chars().count());
        assert!(w.masked_word.contains(&sub));
    }
}

#[test]
fn start_random_without_substrings_keeps_the_menu() {
    let root = build(&["ab"]);
    let mut gc = GameController::new(root);
    let state = gc.start_random();
    assert!(state.substring.is_none());
    assert!(matches!(state.view, View::MENU));
}
