use boggle::{Board, Rejection};

fn board(size: usize, letters: &str, min_len: usize, words: &[&str]) -> Board {
    Board {
        size,
        chars: letters.chars().collect(),
        min_len,
        words: words.iter().map(|w| w.to_string()).collect(),
    }
}

fn abcd() -> Board {
    board(2, "abcd", 2, &["ab", "ad", "aba", "abdc"])
}

#[test]
fn adjacent_pair_is_found() {
    let b = abcd();
    assert!(b.has_word("ab"));
    assert_eq!(b.get_path(&"ab".to_string()), Ok(vec![0, 1]));
}

#[test]
fn diagonal_pair_is_found() {
    let b = abcd();
    assert!(b.has_word("ad"));
    assert_eq!(b.get_path(&"ad".to_string()), Ok(vec![0, 3]));
}

#[test]
fn revisiting_a_cell_is_refused() {
    let b = abcd();
    assert!(!b.has_word("aba"));
    assert_eq!(b.get_path(&"aba".to_string()), Err("Word not found".to_string()));
}

#[test]
fn word_using_every_cell_is_found() {
    let b = abcd();
    assert!(b.has_word("abdc"));
    assert_eq!(b.get_path(&"abdc".to_string()), Ok(vec![0, 1, 3, 2]));
    assert!(b.has_word("abd"));
    assert_eq!(b.get_path(&"abd".to_string()), Ok(vec![0, 1, 3]));
}

#[test]
fn path_ending_in_a_closed_corner_is_found() {
    // a b x
    // d c x
    // x x x
    let b = board(3, "abxdcxxxx", 2, &[]);
    // b, c, d use every neighbour of the corner a
    assert!(b.has_word("bcda"));
    assert_eq!(b.get_path(&"bcda".to_string()), Ok(vec![1, 4, 3, 0]));
}

#[test]
fn word_and_its_reverse_are_found_alike() {
    // a b e
    // c d f
    // g h i
    let b = board(3, "abecdfghi", 2, &[]);
    assert!(b.has_word("bdca"));
    assert_eq!(b.get_path(&"bdca".to_string()), Ok(vec![1, 4, 3, 0]));
    assert!(b.has_word("acdb"));
    assert_eq!(b.get_path(&"acdb".to_string()), Ok(vec![0, 3, 4, 1]));
    for w in ["abe", "gcd", "hif", "adi", "bfh"] {
        let rev: String = w.chars().rev().collect();
        assert_eq!(b.has_word(w), b.has_word(&rev), "{}", w);
    }
}

#[test]
fn upper_case_input_is_lowered() {
    let b = abcd();
    assert!(b.has_word("AB"));
    assert_eq!(b.get_path(&"AD".to_string()), Ok(vec![0, 3]));
}

#[test]
fn qu_input_is_compressed() {
    // e q
    // z t
    let b = board(2, "eqzt", 2, &["eqt"]);
    assert!(b.has_word("equt"));
    assert_eq!(b.get_path(&"Equt".to_string()), Ok(vec![0, 1, 3]));
    assert!(!b.has_word("eut"));
}

#[test]
fn empty_word_has_the_empty_path() {
    let b = abcd();
    assert!(b.has_word(""));
    assert_eq!(b.get_path(&String::new()), Ok(vec![]));
}

#[test]
fn letters_far_apart_are_not_adjacent() {
    // a b c
    // d e f
    // g h i
    let b = board(3, "abcdefghi", 2, &[]);
    assert!(!b.has_word("ac"));
    assert!(!b.has_word("ai"));
    assert!(!b.has_word("ag"));
    assert!(b.has_word("aei"));
    assert!(b.has_word("cfi"));
    assert!(b.has_word("ceg"));
    assert!(!b.has_word("xyz"));
}

#[test]
fn first_path_follows_neighbour_order() {
    // a b a
    // b a b
    // a b a
    let b = board(3, "ababababa", 2, &[]);
    // from cell 0 the neighbour order starts with (+1,+1), the centre
    assert_eq!(b.get_path(&"aa".to_string()), Ok(vec![0, 4]));
    assert_eq!(b.get_path(&"ab".to_string()), Ok(vec![0, 1]));
    // the centre is not a 'b', so the path goes on from cell 1, whose first
    // unvisited 'a' in neighbour order is cell 2, (+1,0)
    assert_eq!(b.get_path(&"aba".to_string()), Ok(vec![0, 1, 2]));
}

#[test]
fn has_word_agrees_with_get_path() {
    let b = board(3, "catdogrun", 2, &[]);
    for w in ["cat", "cog", "dog", "tar", "cad", "run", "nur", "god", "cattle", "zz", "ctn"] {
        let found = b.has_word(w);
        let path = b.get_path(&w.to_string());
        assert_eq!(found, path.is_ok(), "{}", w);
        if let Ok(p) = path {
            assert_eq!(p.len(), w.len());
            for (k, &cell) in p.iter().enumerate() {
                assert_eq!(b.chars[cell], w.chars().nth(k).unwrap());
            }
            for pair in p.windows(2) {
                let (x0, y0) = ((pair[0] % 3) as i64, (pair[0] / 3) as i64);
                let (x1, y1) = ((pair[1] % 3) as i64, (pair[1] / 3) as i64);
                assert!((x0 - x1).abs() <= 1 && (y0 - y1).abs() <= 1);
                assert_ne!(pair[0], pair[1]);
            }
            let mut sorted = p.clone();
            sorted.sort();
            sorted.dedup();
            assert_eq!(sorted.len(), p.len());
        }
    }
}

#[test]
fn find_all_words_keeps_dictionary_order_and_restores_qu() {
    // q e
    // t n
    let b = board(2, "qetn", 3, &["ten", "qet", "net", "tent", "qen", "zen"]);
    assert_eq!(
        b.find_all_words(),
        vec!["ten".to_string(), "quet".to_string(), "net".to_string(), "quen".to_string()]
    );
}

#[test]
fn find_all_words_on_empty_dictionary() {
    let b = abcd();
    let b = Board { words: vec![], ..b };
    assert!(b.find_all_words().is_empty());
}

#[test]
fn find_all_words_matches_has_word() {
    let b = board(3, "catdogrun", 3, &["cat", "dog", "run", "cart", "god", "tag"]);
    let found = b.find_all_words();
    let expected: Vec<String> =
        b.words.iter().filter(|w| b.has_word(w)).cloned().collect();
    assert_eq!(found, expected);
}

#[test]
fn short_word_is_rejected_by_length_first() {
    let b = board(2, "abcd", 4, &["abd"]);
    assert_eq!(b.check_word(&"abd".to_string()), Err(Rejection::TooShort));
    assert_eq!(b.check_word(&"xyz".to_string()), Err(Rejection::TooShort));
}

#[test]
fn word_outside_dictionary_is_rejected() {
    let b = abcd();
    assert_eq!(b.check_word(&"ba".to_string()), Err(Rejection::NotInDictionary));
}

#[test]
fn dictionary_word_off_the_board_is_rejected() {
    let b = abcd();
    assert_eq!(b.check_word(&"aba".to_string()), Err(Rejection::NotFound));
}

#[test]
fn dictionary_word_on_the_board_is_accepted() {
    let b = abcd();
    assert_eq!(b.check_word(&"ad".to_string()), Ok(()));
    assert_eq!(b.check_word(&"abdc".to_string()), Ok(()));
}

#[test]
fn display_shows_rows_in_upper_case() {
    let b = board(2, "abqd", 2, &[]);
    assert_eq!(b.display(), "A  B\nQu D\n");
    assert_eq!(b.cell_label(0), "A  ");
    assert_eq!(b.cell_label(1), "B");
    assert_eq!(b.cell_label(2), "Qu ");
    assert_eq!(b.cell_label(3), "D");
}
