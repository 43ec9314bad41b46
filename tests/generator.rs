use wordcover::generator::{is_valid_dictionary, generate_guesses, generate_in_order, is_valid_word};
use wordcover::tracker::UNBOUNDED;

fn words(list: &[&str]) -> Vec<Vec<u8>> {
    list.iter().map(|w| w.as_bytes().to_vec()).collect()
}

fn alphabet(n: usize) -> Vec<Vec<u8>> {
    (0..n as u8).map(|i| vec![b'a' + i]).collect()
}

fn covers(seq: &[(Vec<u8>, usize)], width: usize, letters: usize) -> bool {
    let mut grid = vec![vec![false; letters]; width];
    for (w, _) in seq {
        for p in 0..width {
            grid[p][(w[p] - b'a') as usize] = true;
        }
    }
    grid.iter().all(|row| row.iter().all(|c| *c))
}

#[test]
fn two_letter_dictionary_is_covered_by_two_words() {
    let dict = words(&["aa", "bb", "ab", "ba"]);
    for _ in 0..50 {
        let seq = generate_guesses(&dict, 2, 2, UNBOUNDED).expect("a cover exists");
        assert_eq!(seq.len(), 2);
        assert!(covers(&seq, 2, 2));
        let mut chosen: Vec<Vec<u8>> = seq.iter().map(|(w, _)| w.clone()).collect();
        chosen.sort();
        assert_eq!(chosen, words(&["aa", "bb"]));
        assert!(seq.iter().all(|(_, s)| *s == 2));
    }
}

#[test]
fn unreachable_pair_never_yields_a_sequence() {
    let dict = words(&["ab", "bb"]);
    for _ in 0..50 {
        assert!(generate_guesses(&dict, 2, 2, UNBOUNDED).is_none());
    }
}

#[test]
fn bound_equal_to_cover_length_aborts() {
    let dict = alphabet(3);
    for _ in 0..20 {
        assert!(generate_guesses(&dict, 1, 3, 3).is_none());
        let seq = generate_guesses(&dict, 1, 3, 4).expect("length three is below four");
        assert_eq!(seq.len(), 3);
    }
}

#[test]
fn single_letters_cover_in_twenty_six_words() {
    let dict = alphabet(26);
    let seq = generate_guesses(&dict, 1, 26, UNBOUNDED).expect("every letter is present");
    assert_eq!(seq.len(), 26);
    assert!(seq.iter().all(|(_, s)| *s == 1));
    assert!(covers(&seq, 1, 26));
}

#[test]
fn bound_zero_returns_nothing() {
    let dict = alphabet(26);
    assert!(generate_guesses(&dict, 1, 26, 0).is_none());
    assert!(generate_guesses(&Vec::new(), 0, 26, 0).is_none());
}

#[test]
fn bound_one_returns_nothing_for_a_real_grid() {
    let dict = words(&["aa", "bb", "ab", "ba"]);
    for _ in 0..20 {
        assert!(generate_guesses(&dict, 2, 2, 1).is_none());
    }
    let empty: Vec<(Vec<u8>, usize)> = Vec::new();
    assert_eq!(generate_guesses(&Vec::new(), 0, 26, 1), Some(empty));
}

#[test]
fn empty_dictionary_is_a_dead_end() {
    assert!(generate_guesses(&Vec::new(), 5, 26, UNBOUNDED).is_none());
}

#[test]
fn greedy_choice_breaks_ties_by_dictionary_order() {
    let dict = words(&["ab", "aa", "bb", "ba"]);
    let steps = vec![(0usize, b'a'), (0, b'b'), (1, b'a'), (1, b'b')];
    let seq = generate_in_order(&dict, 2, 2, UNBOUNDED, &steps).unwrap();
    assert_eq!(seq, vec![(b"ab".to_vec(), 2), (b"ba".to_vec(), 2)]);
}

#[test]
fn greedy_choice_prefers_more_new_pairs() {
    let dict = words(&["aab", "abc", "acc", "bbb", "ccc", "cba"]);
    let steps = vec![
        (0usize, b'a'), (0, b'b'), (0, b'c'),
        (1, b'a'), (1, b'b'), (1, b'c'),
        (2, b'a'), (2, b'b'), (2, b'c'),
    ];
    let seq = generate_in_order(&dict, 3, 3, UNBOUNDED, &steps).unwrap();
    assert_eq!(
        seq,
        vec![
            (b"aab".to_vec(), 3),
            (b"bbb".to_vec(), 2),
            (b"ccc".to_vec(), 3),
            (b"cba".to_vec(), 1),
        ]
    );
    let total: usize = seq.iter().map(|(_, s)| *s).sum();
    assert_eq!(total, 9);
    assert!(generate_in_order(&dict, 3, 3, 4, &steps).is_none());
    assert!(generate_in_order(&dict, 3, 3, 5, &steps).is_some());
}

#[test]
fn uncovered_pairs_left_by_the_order_give_nothing() {
    let dict = words(&["aa", "bb"]);
    let steps = vec![(0usize, b'a')];
    assert!(generate_in_order(&dict, 2, 2, UNBOUNDED, &steps).is_none());
}

#[test]
fn scores_sum_to_the_number_of_pairs() {
    let dict = words(&["abc", "bca", "cab", "aaa", "bbb", "ccc", "abb"]);
    for _ in 0..50 {
        if let Some(seq) = generate_guesses(&dict, 3, 3, UNBOUNDED) {
            assert!(covers(&seq, 3, 3));
            let total: usize = seq.iter().map(|(_, s)| *s).sum();
            assert_eq!(total, 9);
            assert!(seq.iter().all(|(w, s)| *s >= 1 && *s <= 3 && dict.contains(w)));
        } else {
            panic!("the dictionary admits a cover and the run is unbounded");
        }
    }
}

#[test]
fn word_shapes_are_checked() {
    assert!(is_valid_word(&b"hello".to_vec(), 5, 26));
    assert!(!is_valid_word(&b"hell".to_vec(), 5, 26));
    assert!(!is_valid_word(&b"Hello".to_vec(), 5, 26));
    assert!(!is_valid_word(&b"abc".to_vec(), 3, 2));
    assert!(is_valid_dictionary(&words(&["ab", "ba"]), 2, 2));
    assert!(!is_valid_dictionary(&words(&["ab", "bc"]), 2, 2));
    assert!(is_valid_dictionary(&Vec::new(), 5, 26));
}

#[test]
fn every_unbounded_run_covers_a_reachable_dictionary() {
    let dict = words(&["abc", "bca", "cab", "bbb"]);
    for _ in 0..100 {
        let seq = generate_guesses(&dict, 3, 3, UNBOUNDED).expect("every pair is reachable");
        assert!(covers(&seq, 3, 3));
    }
}

#[test]
fn visiting_order_varies_between_runs() {
    let dict = words(&["aa", "bb"]);
    let mut firsts = Vec::new();
    for _ in 0..200 {
        let seq = generate_guesses(&dict, 2, 2, UNBOUNDED).unwrap();
        if !firsts.contains(&seq[0].0) {
            firsts.push(seq[0].0.clone());
        }
    }
    firsts.sort();
    assert_eq!(firsts, words(&["aa", "bb"]));
}

#[test]
fn no_word_follows_itself() {
    let dict = words(&["aab", "abc", "acc", "bbb", "ccc", "cba", "aaa"]);
    for _ in 0..50 {
        let seq = generate_guesses(&dict, 3, 3, UNBOUNDED).unwrap();
        for pair in seq.windows(2) {
            assert_ne!(pair[0].0, pair[1].0);
        }
    }
}
