use boggle::{compress_qu, expand_qu, filter_words, get_char_counts, normalize_word, pick_letter, Board};

fn strings(ws: &[&str]) -> Vec<String> {
    ws.iter().map(|w| w.to_string()).collect()
}

#[test]
fn counts_of_a_single_word() {
    let counts = get_char_counts(&strings(&["aab"]));
    let mut expected = vec![0u64; 26];
    expected[0] = 2;
    expected[1] = 1;
    assert_eq!(counts, expected);
    let total: u64 = counts.iter().sum();
    let dist: Vec<f64> = counts.iter().map(|&c| c as f64 / total as f64).collect();
    assert!((dist[0] - 2.0 / 3.0).abs() < 1e-12);
    assert!((dist[1] - 1.0 / 3.0).abs() < 1e-12);
    assert!(dist[2..].iter().all(|&p| p == 0.0));
}

#[test]
fn counts_over_several_words() {
    let counts = get_char_counts(&strings(&["zoo", "qat", "a"]));
    assert_eq!(counts[25], 1);
    assert_eq!(counts[14], 2);
    assert_eq!(counts[16], 1);
    assert_eq!(counts[0], 2);
    assert_eq!(counts[19], 1);
    assert_eq!(counts.iter().sum::<u64>(), 7);
}

#[test]
fn counts_of_no_words_are_zero() {
    assert_eq!(get_char_counts(&vec![]), vec![0u64; 26]);
}

#[test]
fn pick_letter_scans_the_cumulative_counts() {
    let counts = get_char_counts(&strings(&["aab"]));
    assert_eq!(pick_letter(&counts, 0), 'a');
    assert_eq!(pick_letter(&counts, 1), 'a');
    assert_eq!(pick_letter(&counts, 2), 'b');
    let counts = get_char_counts(&strings(&["zzy"]));
    assert_eq!(pick_letter(&counts, 0), 'y');
    assert_eq!(pick_letter(&counts, 2), 'z');
}

#[test]
fn filter_keeps_long_words_with_a_vowel() {
    let kept = filter_words(3, strings(&["at", "cat", "tsk", "gym", "qeen", "bbbb", "ox"]));
    assert_eq!(kept, strings(&["cat", "gym", "qeen"]));
}

#[test]
fn generated_board_has_size_squared_letters() {
    let b = Board::random(2, 3, strings(&["cat", "dog", "ox", "bird"]));
    assert_eq!(b.size, 2);
    assert_eq!(b.min_len, 3);
    assert_eq!(b.chars.len(), 4);
    assert!(b.chars.iter().all(|c| "catdogbird".contains(*c)));
    assert_eq!(b.words, strings(&["cat", "dog", "bird"]));
}

#[test]
fn generated_board_from_one_letter_is_uniform() {
    let b = Board::random(2, 2, strings(&["ee", "e"]));
    assert_eq!(b.chars, vec!['e'; 4]);
    let b = Board::random(5, 3, strings(&["eee"]));
    assert_eq!(b.chars, vec!['e'; 25]);
}

#[test]
fn compression_round_trips() {
    for w in ["queen", "quiz", "aqua", "quququ", "", "abc", "quu"] {
        let c = compress_qu(w.to_string());
        assert_eq!(expand_qu(c), w);
    }
    assert_eq!(compress_qu("queen".to_string()), "qeen");
    assert_eq!(compress_qu("quu".to_string()), "qu");
    assert_eq!(expand_qu("qeen".to_string()), "queen");
}

#[test]
fn compression_leaves_words_without_qu() {
    for w in ["abc", "qat", "uq", "tranquil"] {
        let c = compress_qu(w.to_string());
        if w.contains("qu") {
            assert_ne!(c, w);
        } else {
            assert_eq!(c, w);
        }
    }
    assert_eq!(compress_qu("tranquil".to_string()), "tranqil");
}

#[test]
fn normalization_lowers_and_compresses() {
    assert_eq!(normalize_word("QUEEN"), vec!['q', 'e', 'e', 'n']);
    assert_eq!(normalize_word("Cat"), vec!['c', 'a', 't']);
    assert!(normalize_word("").is_empty());
}

#[test]
fn counts_do_not_depend_on_word_order() {
    let a = get_char_counts(&strings(&["queen", "cab", "zoo"]));
    let b = get_char_counts(&strings(&["zoo", "queen", "cab"]));
    assert_eq!(a, b);
    let ab = get_char_counts(&strings(&["queen", "cab"]));
    let z = get_char_counts(&strings(&["zoo"]));
    let summed: Vec<u64> = ab.iter().zip(z.iter()).map(|(x, y)| x + y).collect();
    assert_eq!(a, summed);
}
