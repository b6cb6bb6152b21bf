use spell_checker::checker::SpellChecker;
use spell_checker::trie::{add_to_trie, find_chars_in_level, find_root, Node};

#[test]
fn assert_counts() {
    let res = SpellChecker::new("hello hello great world \n the world");

    assert_eq!(res.count("hello"), 2);
    assert_eq!(res.count("great"), 1);
    assert_eq!(res.count("world"), 2);
    assert_eq!(res.count("the"), 1);
    assert_eq!(res.total(), 6);
}

#[test]
fn assert_probability() {
    let res = SpellChecker::new("hello hello great world \n the world");

    assert_eq!(res.count("hello") as f64 / res.total() as f64, 2. / 6.);
    assert_eq!(res.count("dog") as f64 / res.total() as f64, 0.);
}

#[test]
fn assert_correct_choice() {
    let mut res = SpellChecker::new("hello world hello word hello world");

    assert_eq!(res.count("world") as f64 / res.total() as f64, 2. / 6.);
    assert_eq!(res.count("word") as f64 / res.total() as f64, 1. / 6.);
    assert_eq!(res.correct(String::from("wor")), "world");
}

#[test]
fn assert_slices() {
    let res = SpellChecker::new("");
    let slices = res.slices(String::from("cat"));
    assert_eq!(slices[0].0, "");
    assert_eq!(slices[0].1, "cat");
    assert_eq!(slices[1].0, "c");
    assert_eq!(slices[1].1, "at");
    assert_eq!(slices[2].0, "ca");
    assert_eq!(slices[2].1, "t");
    assert_eq!(slices[3].0, "cat");
    assert_eq!(slices[3].1, "");
}

#[test]
fn assert_candidates() {
    let res = SpellChecker::new("");
    let cand = res.candidates(String::from("cat"));
    println!("candidates {:?}", cand);
    assert_eq!(cand.len(), 5); // this should only be the transpose and delete ones
}

#[test]
fn assert_wordp() {
    let res = SpellChecker::new("hello hello great world");

    assert_eq!(res.wordp(&String::from("worl")), false);
    assert_eq!(res.wordp(&String::from("hello")), true);
}

#[test]
fn assert_correct() {
    let mut res = SpellChecker::new("hello hello great world");

    assert_eq!(res.correct(String::from("worl")), "world");
    assert_eq!(res.correct(String::from("hell")), "hello");
}

#[test]
fn slices_reassemble_word() {
    let res = SpellChecker::new("");
    let word = "paper";
    let slices = res.slices(String::from(word));
    assert_eq!(slices.len(), word.len() + 1);
    for (pre, suf) in slices {
        assert_eq!(format!("{}{}", pre, suf), word);
    }
}

#[test]
fn candidates_against_empty_dictionary() {
    let res = SpellChecker::new("");
    let cand = res.candidates(String::from("cat"));
    assert_eq!(cand, vec!["at", "act", "ct", "cta", "ca"]);
}

#[test]
fn candidates_use_observed_characters() {
    let res = SpellChecker::new("ab");
    let cand = res.candidates(String::from("ab"));
    // At position 0 only 'a' was observed, at position 1 (after "a") only
    // 'b': replacements and insertions are drawn from those alone.
    assert_eq!(cand, vec!["b", "ba", "ab", "aab", "a", "ab", "abb"]);
}

#[test]
fn correct_is_deterministic() {
    let mut res = SpellChecker::new("hello hello great world");
    let first = res.correct(String::from("worl"));
    let second = res.correct(String::from("worl"));
    assert_eq!(first, second);
}

#[test]
fn correct_without_valid_candidate_keeps_sentinel() {
    let mut res = SpellChecker::new("hello");
    assert_eq!(res.correct(String::from("zzzz")), "-");
}

#[test]
fn empty_corpus_has_no_members() {
    let mut res = SpellChecker::new("");
    assert_eq!(res.total(), 0);
    assert_eq!(res.count("anything"), 0);
    assert_eq!(res.wordp(&String::from("anything")), false);
    assert_eq!(res.correct(String::from("anything")), "-");
}

#[test]
fn carriage_returns_are_stripped() {
    let res = SpellChecker::new("a\r\nb b");
    assert_eq!(res.count("a"), 1);
    assert_eq!(res.count("b"), 2);
    assert_eq!(res.total(), 3);
}

#[test]
fn blank_tokens_are_skipped() {
    let res = SpellChecker::new("  a   b \n\n c ");
    assert_eq!(res.count("a"), 1);
    assert_eq!(res.count("b"), 1);
    assert_eq!(res.count("c"), 1);
    assert_eq!(res.total(), 3);
}

#[test]
fn ties_go_to_the_first_candidate_generated() {
    let mut res = SpellChecker::new("word ward");
    assert_eq!(res.correct(String::from("wrd")), "word");
    let mut swapped = SpellChecker::new("ward word");
    assert_eq!(swapped.correct(String::from("wrd")), "ward");
}

#[test]
fn trie_tracks_observed_characters() {
    let mut trie: Vec<Node> = Vec::new();
    add_to_trie(&mut trie, "cat");
    add_to_trie(&mut trie, "car");
    add_to_trie(&mut trie, "dog");

    let roots = find_chars_in_level(&trie, 0, "").unwrap();
    assert_eq!(roots, vec!['c', 'd']);
    let after_ca = find_chars_in_level(&trie, 2, "ca").unwrap();
    assert_eq!(after_ca, vec!['t', 'r']);
    assert!(find_chars_in_level(&trie, 2, "xy").is_none());
}

#[test]
fn find_root_reuses_or_appends() {
    let mut trie: Vec<Node> = Vec::new();
    let a = find_root(&mut trie, 'a');
    let b = find_root(&mut trie, 'b');
    let a_again = find_root(&mut trie, 'a');
    assert_eq!(a, 0);
    assert_eq!(b, 1);
    assert_eq!(a_again, 0);
    assert_eq!(trie.len(), 2);
}

#[test]
fn node_new_has_no_children() {
    let n = Node::new('q');
    assert_eq!(n.letter, 'q');
    assert_eq!(n.children.len(), 0);
}
