use anagramsolver::solver::anagram::is_valid_solution;
use anagramsolver::solver::letters::LetterFreq;
use anagramsolver::AnagramSolver;

fn dict(words: &[&str]) -> Vec<String> {
    words.iter().map(|w| w.to_string()).collect()
}

#[test]
fn letterfreq_folds_case_and_ignores_nonletters() {
    let a = LetterFreq::from_str("Can't");
    let b = LetterFreq::from_str("cant");
    assert_eq!(a, b);
    let c = LetterFreq::from_str("LISTEN");
    let d = LetterFreq::from_str("listen");
    assert_eq!(c, d);
}

#[test]
fn letterfreq_is_empty() {
    assert!(LetterFreq::from_str("").is_empty());
    assert!(LetterFreq::from_str("!!! 123 ?").is_empty());
    assert!(!LetterFreq::from_str("a").is_empty());
}

#[test]
fn letterfreq_subtract() {
    let listen = LetterFreq::from_str("listen");
    let list = LetterFreq::from_str("list");
    let rest = listen.subtract(&list).expect("list fits in listen");
    assert_eq!(rest, LetterFreq::from_str("en"));
    assert!(list.subtract(&listen).is_none());
    assert!(listen.subtract(&listen).unwrap().is_empty());
}

#[test]
fn validity_filter_boundaries() {
    let ok3: Vec<String> = dict(&["ab", "cd", "ef"]);
    assert!(is_valid_solution(&ok3));
    let none: Vec<String> = Vec::new();
    assert!(is_valid_solution(&none));
    let half: Vec<String> = dict(&["aaaa", "bbbb", "cc", "dd"]);
    assert!(is_valid_solution(&half));
    let over: Vec<String> = dict(&["aaaa", "bb", "cc", "dd"]);
    assert!(!is_valid_solution(&over));
}

#[test]
fn listen_scenario() {
    let solver = AnagramSolver::new(dict(&["silent", "enlist", "tinsel", "list", "sent"]));
    let results = solver.solve("listen");
    assert!(results.contains(&"silent".to_string()));
    assert!(results.contains(&"enlist".to_string()));
    assert!(results.contains(&"tinsel".to_string()));
    // "en" is not derivable from any dictionary entry, so "list" never
    // appears in a solution.
    for r in &results {
        assert!(!r.split(' ').any(|w| w == "list"));
    }
    assert_eq!(results, dict(&["enlist", "silent", "tinsel"]));
}

#[test]
fn empty_phrase_yields_only_the_empty_solution() {
    let solver = AnagramSolver::new(dict(&["silent", "list"]));
    assert_eq!(solver.solve(""), dict(&[""]));
    let empty_dict = AnagramSolver::new(Vec::new());
    assert_eq!(empty_dict.solve(""), dict(&[""]));
}

#[test]
fn word_with_foreign_letter_never_appears() {
    let solver = AnagramSolver::new(dict(&["zebra", "bear"]));
    let results = solver.solve("bear");
    for r in &results {
        assert!(!r.split(' ').any(|w| w == "zebra"));
    }
    assert_eq!(results, dict(&["bear"]));
}

#[test]
fn repeated_calls_give_identical_sequences() {
    let solver = AnagramSolver::new(dict(&["list", "en", "silent", "net", "lis"]));
    let first = solver.solve("listen");
    let second = solver.solve("listen");
    assert_eq!(first, second);
    let other = AnagramSolver::new(dict(&["list", "en", "silent", "net", "lis"]));
    assert_eq!(other.solve("listen"), first);
}

#[test]
fn exhausted_iterator_stays_exhausted() {
    let solver = AnagramSolver::new(dict(&["silent", "enlist"]));
    let mut it = solver.iter("listen");
    let mut count = 0;
    while let Some(_) = it.next() {
        count += 1;
    }
    assert_eq!(count, 2);
    assert!(it.next().is_none());
    assert!(it.next().is_none());
    assert!(it.next().is_none());
}

#[test]
fn iterator_yields_longest_first() {
    let solver = AnagramSolver::new(dict(&["list", "silent", "enlist"]));
    let mut it = solver.iter("listen");
    assert_eq!(it.next(), Some(dict(&["enlist"])));
    assert_eq!(it.next(), Some(dict(&["silent"])));
    assert_eq!(it.next(), None);
}

#[test]
fn multi_word_solutions_in_search_order() {
    let solver = AnagramSolver::new(dict(&["list", "en"]));
    assert_eq!(solver.solve("listen"), dict(&["list en", "en list"]));
}

#[test]
fn words_may_repeat_within_a_solution() {
    let solver = AnagramSolver::new(dict(&["a"]));
    assert_eq!(solver.solve("aa"), dict(&["a a"]));
}

#[test]
fn words_without_letters_are_never_candidates() {
    let solver = AnagramSolver::new(dict(&["abc", "", "!!"]));
    assert_eq!(solver.solve("abc"), dict(&["abc"]));
}

#[test]
fn short_word_solutions_are_suppressed_beyond_three_words() {
    let solver = AnagramSolver::new(dict(&["ab", "cd"]));
    // Two short words are fine.
    assert_eq!(solver.solve("abcd"), dict(&["ab cd", "cd ab"]));
    // Four words, all short: rejected by the validity filter.
    assert_eq!(solver.solve("abcdabcd"), Vec::<String>::new());
}

#[test]
fn phrase_with_no_solution() {
    let solver = AnagramSolver::new(dict(&["silent"]));
    assert_eq!(solver.solve("xyzzy"), Vec::<String>::new());
}

#[test]
fn solutions_use_exactly_the_phrase_letters() {
    let solver = AnagramSolver::new(dict(&["list", "en", "net", "lis", "silent", "tin"]));
    let mut it = solver.iter("listen");
    let mut seen = 0;
    while let Some(sol) = it.next() {
        let mut letters: Vec<char> = sol.concat().chars().collect();
        letters.sort();
        let joined: String = letters.iter().collect();
        assert_eq!(joined, "eilnst");
        seen += 1;
    }
    assert!(seen > 0);
}
