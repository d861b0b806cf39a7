use xw::lexicon::{to_ascii_upper, to_upper_word, Lexicon};
use xw::puzzle::Puzzle;

fn words(list: &[&str]) -> Vec<String> {
    list.iter().map(|w| w.to_string()).collect()
}

#[test]
fn test_empty_lexicon() {
    assert_eq!(Lexicon::empty().len(), 0);
    assert_eq!(Lexicon::empty().words_by_length(3).len(), 0);
}

#[test]
fn test_lexicon_from_words() {
    let words = vec!["cat".to_string(), "dog".to_string()];
    let lexicon = Lexicon::from_words(words);
    assert_eq!(lexicon.len(), 2);
    assert_eq!(lexicon.words_by_length(3).len(), 2);
    assert_eq!(lexicon.words_by_length(4).len(), 0);
}

#[test]
fn test_possible_answers() {
    let words = vec![
        "cat".to_string(),
        "dog".to_string(),
        "rat".to_string(),
        "bat".to_string(),
    ];
    let lexicon = Lexicon::from_words(words);

    // set this up to check against the acrosses
    let crossword_s = "\
cat.
 at.
xy .
c  s\
";
    let puzzle = Puzzle::from_str(crossword_s).unwrap();

    // Test exact match
    println!("slot 0: {}", puzzle.access(0).unwrap().to_string());
    assert_eq!(lexicon.possible_answers(&puzzle.access(0).unwrap()), vec!["CAT"]);
    // Test with missing letters
    let matches = lexicon.possible_answers(&puzzle.access(1).unwrap());
    assert_eq!(matches.len(), 3);
    assert!(matches.contains(&"CAT".to_string()));
    assert!(matches.contains(&"RAT".to_string()));
    assert!(matches.contains(&"BAT".to_string()));
    // Test no matches
    assert!(lexicon.possible_answers(&puzzle.access(2).unwrap()).is_empty());
    // Test too-long slot
    assert!(lexicon.possible_answers(&puzzle.access(3).unwrap()).is_empty());
}

#[test]
fn answers_come_in_lexicon_order() {
    let lexicon = Lexicon::from_words(words(&["cat", "dog", "rat", "bat"]));
    let puzzle = Puzzle::parse(" AT\nCAT\n  G\n   ").unwrap();
    assert_eq!(
        lexicon.possible_answers(&puzzle.access(0).unwrap()),
        vec!["CAT", "RAT", "BAT"]
    );
    assert_eq!(lexicon.possible_answers(&puzzle.access(1).unwrap()), vec!["CAT"]);
    assert_eq!(lexicon.possible_answers(&puzzle.access(2).unwrap()), vec!["DOG"]);
    assert_eq!(
        lexicon.possible_answers(&puzzle.access(3).unwrap()),
        vec!["CAT", "DOG", "RAT", "BAT"]
    );
}

#[test]
fn a_pattern_of_another_length_has_no_answers() {
    let lexicon = Lexicon::from_words(words(&["cat", "dog", "rat", "bat"]));
    let puzzle = Puzzle::parse("     \n.....").unwrap();
    let slot = puzzle.access(0).unwrap();
    assert_eq!(slot.len(), 5);
    assert!(lexicon.possible_answers(&slot).is_empty());
    assert!(Lexicon::empty().possible_answers(&slot).is_empty());
}

#[test]
fn answers_have_the_length_and_letters_of_the_pattern() {
    let lexicon = Lexicon::from_words(words(&["cart", "card", "cord", "ward", "car", "cards"]));
    let puzzle = Puzzle::parse("c r ").unwrap();
    let slot = puzzle.access(0).unwrap();
    let answers = lexicon.possible_answers(&slot);
    assert_eq!(answers, vec!["CART", "CARD", "CORD"]);
    for word in &answers {
        assert_eq!(word.chars().count(), slot.len());
        for (i, c) in word.chars().enumerate() {
            let wanted = slot.index(i);
            assert!(wanted == ' ' || wanted.to_ascii_uppercase() == c);
        }
    }
}

#[test]
fn pattern_letters_match_in_either_case() {
    let lexicon = Lexicon::from_words(words(&["Cat", "cAT", "rat"]));
    let lower = Puzzle::parse("cat").unwrap();
    let upper = Puzzle::parse("CAT").unwrap();
    assert_eq!(lexicon.possible_answers(&lower.access(0).unwrap()), vec!["CAT"]);
    assert_eq!(lexicon.possible_answers(&upper.access(0).unwrap()), vec!["CAT"]);
}

#[test]
fn duplicates_collapse() {
    let lexicon = Lexicon::from_words(words(&["cat", "CAT", "dog", "Cat", "dog", "a"]));
    assert_eq!(lexicon.len(), 3);
    assert_eq!(lexicon.words_by_length(3), &vec!["CAT".to_string(), "DOG".to_string()]);
    assert_eq!(lexicon.words_by_length(1), &vec!["A".to_string()]);
    assert_eq!(lexicon.skipped(), 0);
}

#[test]
fn words_that_are_not_ascii_are_left_out_and_counted() {
    let lexicon = Lexicon::from_words(words(&["café", "cafe", "naïve", "über", "uber"]));
    assert_eq!(lexicon.len(), 2);
    assert_eq!(lexicon.skipped(), 3);
    assert_eq!(
        lexicon.words_by_length(4),
        &vec!["CAFE".to_string(), "UBER".to_string()]
    );
    assert_eq!(lexicon.words_by_length(5).len(), 0);
    assert_eq!(Lexicon::empty().skipped(), 0);
}

#[test]
fn words_are_kept_by_length() {
    let lexicon = Lexicon::from_words(words(&["", "a", "bb", "cc", "dddd"]));
    assert_eq!(lexicon.len(), 5);
    assert_eq!(lexicon.words_by_length(0), &vec!["".to_string()]);
    assert_eq!(lexicon.words_by_length(1), &vec!["A".to_string()]);
    assert_eq!(lexicon.words_by_length(2), &vec!["BB".to_string(), "CC".to_string()]);
    assert_eq!(lexicon.words_by_length(3).len(), 0);
    assert_eq!(lexicon.words_by_length(4), &vec!["DDDD".to_string()]);
    assert_eq!(lexicon.words_by_length(5).len(), 0);
    assert_eq!(lexicon.words_by_length(usize::MAX).len(), 0);
}

#[test]
fn digits_and_signs_are_kept_as_they_are() {
    let lexicon = Lexicon::from_words(words(&["a-1", "x y"]));
    assert_eq!(lexicon.words_by_length(3), &vec!["A-1".to_string(), "X Y".to_string()]);
}

#[test]
fn upper_case_of_characters_and_words() {
    assert_eq!(to_ascii_upper('a'), 'A');
    assert_eq!(to_ascii_upper('z'), 'Z');
    assert_eq!(to_ascii_upper('m'), 'M');
    assert_eq!(to_ascii_upper('A'), 'A');
    assert_eq!(to_ascii_upper('`'), '`');
    assert_eq!(to_ascii_upper('{'), '{');
    assert_eq!(to_ascii_upper(' '), ' ');
    assert_eq!(to_ascii_upper('é'), 'é');
    assert_eq!(to_upper_word("crossWord 9é"), "CROSSWORD 9é");
    for code in 0u32..0x250 {
        if let Some(c) = char::from_u32(code) {
            assert_eq!(to_ascii_upper(c), c.to_ascii_uppercase());
        }
    }
}
