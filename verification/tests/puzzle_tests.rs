use xw::puzzle::{Puzzle, PuzzleError};

fn texts(puzzle: &Puzzle) -> Vec<String> {
    let mut all = Vec::new();
    for i in 0..puzzle.nslots() {
        all.push(puzzle.access(i).unwrap().to_string());
    }
    all
}

fn cluster(text: &str) -> Vec<char> {
    text.chars().collect()
}

fn cluster_row(row: &[&str]) -> Vec<Vec<char>> {
    row.iter().map(|c| cluster(c)).collect()
}

#[test]
fn lib_puzzle_creation_errors() {
    let too_few_chars = "\
.ABC.
DE.F\
";
    assert!(
        Puzzle::from_str(too_few_chars).is_err(),
        "too few characters in the second row"
    );

    let too_many_chars = "\
.ABC.
DE.FGH\
";
    assert!(
        Puzzle::from_str(too_many_chars).is_err(),
        "too few characters in the second row"
    );

    let multi_character_grapheme = "\
.aÃêBC.
DE.FG\
";
    assert!(
        Puzzle::from_str(multi_character_grapheme).is_err(),
        "can't currently handle a multi-character grapheme cluster"
    );
}

#[test]
fn lib_basic() {
    let crossword_str = "\
.ABC.
DE.FG
TROUT
.MNO.\
";

    let puzzle = Puzzle::from_str(crossword_str).unwrap();

    let across_vals = ["ABC", "DE", "FG", "TROUT", "MNO"];
    let down_vals = ["DT", "AERM", "B", "ON", "CFUO", "GT"];
    assert_eq!(puzzle.nacross(), across_vals.len());
    assert_eq!(puzzle.ndown(), down_vals.len());

    let ref_vals = Vec::from_iter(
        across_vals
            .iter()
            .chain(down_vals.iter())
            .map(|s| s.to_string()),
    );
    assert_eq!(puzzle.nslots(), ref_vals.len());

    for i in 0..puzzle.nslots() {
        assert_eq!(puzzle.access(i).unwrap().to_string(), ref_vals[i]);
    }

    // we are going to modify modify_index so that it now holds "XY"
    let modify_index = puzzle.nslots() - 1;
    let new_val = "XY";
    let mut modified_ref_vals = ref_vals.clone();
    modified_ref_vals[2] = String::from("FX");
    modified_ref_vals[3] = String::from("TROUY");
    modified_ref_vals[modify_index] = new_val.to_string();

    let modified = puzzle.with_filled_slot(modify_index, &new_val).unwrap();

    // ensure the puzzle itself wasn't modified
    for i in 0..puzzle.nslots() {
        assert_eq!(puzzle.access(i).unwrap().to_string(), ref_vals[i]);
    }

    // ensure the modified puzzle has the updated values
    for i in 0..modified.nslots() {
        assert_eq!(modified.access(i).unwrap().to_string(), modified_ref_vals[i]);
    }
}

#[test]
fn puzzle_puzzle_creation_errors() {
    let too_few_chars = "\
.ABC.
DE.F\
";
    assert!(
        Puzzle::parse(too_few_chars).is_err(),
        "too few characters in the second row"
    );

    let too_many_chars = "\
.ABC.
DE.FGH\
";
    assert!(
        Puzzle::parse(too_many_chars).is_err(),
        "too few characters in the second row"
    );

    let multi_character_grapheme = "\
.aÃêBC.
DE.FG\
";
    assert!(
        Puzzle::parse(multi_character_grapheme).is_err(),
        "can't currently handle a multi-character grapheme cluster"
    );
}

#[test]
fn puzzle_basic() {
    let crossword_str = "\
.ABC.
DE.FG
TROUT
.MNO.\
";

    let puzzle = Puzzle::parse(crossword_str).unwrap();
    println!("{}", puzzle.render());

    let across_vals = ["ABC", "DE", "FG", "TROUT", "MNO"];
    let down_vals = ["DT", "AERM", "B", "ON", "CFUO", "GT"];
    assert_eq!(puzzle.nacross(), across_vals.len());
    assert_eq!(puzzle.ndown(), down_vals.len());

    let ref_vals = Vec::from_iter(
        across_vals
            .iter()
            .chain(down_vals.iter())
            .map(|s| s.to_string()),
    );
    assert_eq!(puzzle.nslots(), ref_vals.len());

    for (i, val) in ref_vals.iter().enumerate() {
        assert_eq!(puzzle.access(i).unwrap().to_string(), *val);
    }

    // we are going to modify modify_index so that it now holds "XY"
    let modify_index = puzzle.nslots() - 1;
    let new_val = "XY";
    let mut modified_ref_vals = ref_vals.clone();
    modified_ref_vals[2] = String::from("FX");
    modified_ref_vals[3] = String::from("TROUY");
    modified_ref_vals[modify_index] = new_val.to_string();

    let modified = puzzle.with_filled_slot(modify_index, new_val).unwrap();

    // ensure the puzzle itself wasn't modified
    for (i, val) in ref_vals.iter().enumerate() {
        assert_eq!(puzzle.access(i).unwrap().to_string(), *val);
    }

    // ensure the modified puzzle has the updated values
    for (i, val) in modified_ref_vals.iter().enumerate() {
        assert_eq!(modified.access(i).unwrap().to_string(), *val);
    }
}

#[test]
fn row_too_short_is_reported() {
    assert_eq!(Puzzle::parse(".ABC.\nDE.F").err(), Some(PuzzleError::RowTooShort));
}

#[test]
fn row_too_long_is_reported() {
    assert_eq!(Puzzle::parse(".ABC.\nDE.FGH").err(), Some(PuzzleError::RowTooLong));
}

#[test]
fn combining_mark_is_reported() {
    // "a" followed by a combining mark is one cluster of two characters
    assert_eq!(
        Puzzle::parse("a\u{310}BC\nDEF").err(),
        Some(PuzzleError::MultiCodepointGrapheme)
    );
    // the same text without the mark is a sound grid
    assert!(Puzzle::parse("aBC\nDEF").is_ok());
}

#[test]
fn first_fault_in_reading_order_wins() {
    // row 1 is too short, row 2 has a cluster of two characters
    assert_eq!(
        Puzzle::parse("ABC\nDE\nFe\u{301}H").err(),
        Some(PuzzleError::RowTooShort)
    );
    // within a row, a bad cluster among the first columns comes before the excess
    assert_eq!(
        Puzzle::parse("AB\nCe\u{301}FG").err(),
        Some(PuzzleError::MultiCodepointGrapheme)
    );
    // a bad cluster beyond the last column is never looked at
    assert_eq!(Puzzle::parse("AB\nCDe\u{301}").err(), Some(PuzzleError::RowTooLong));
    // a short row with a bad cluster reports the cluster
    assert_eq!(
        Puzzle::parse("ABC\ne\u{301}").err(),
        Some(PuzzleError::MultiCodepointGrapheme)
    );
}

#[test]
fn trailing_newline_makes_an_empty_row() {
    assert_eq!(Puzzle::parse("AB\nCD\n").err(), Some(PuzzleError::RowTooShort));
}

#[test]
fn empty_text_is_a_grid_without_squares() {
    let puzzle = Puzzle::parse("").unwrap();
    assert_eq!(puzzle.nacross(), 0);
    assert_eq!(puzzle.ndown(), 0);
    assert_eq!(puzzle.nslots(), 0);
    assert_eq!(puzzle.access(0).err(), Some(PuzzleError::IndexOutOfRange));
    // rows without squares are still rows of equal length
    let puzzle = Puzzle::parse("\n\n").unwrap();
    assert_eq!(puzzle.nslots(), 0);
}

#[test]
fn all_blocked_grid_has_no_slots() {
    let puzzle = Puzzle::parse("..\n..").unwrap();
    assert_eq!(puzzle.nslots(), 0);
}

#[test]
fn single_squares_are_slots() {
    let puzzle = Puzzle::parse("A.B\n.C.").unwrap();
    assert_eq!(puzzle.nacross(), 3);
    assert_eq!(puzzle.ndown(), 3);
    assert_eq!(texts(&puzzle), vec!["A", "B", "C", "A", "C", "B"]);
    for i in 0..puzzle.nslots() {
        let slot = puzzle.access(i).unwrap();
        assert_eq!(slot.len(), 1);
        assert!(!slot.is_empty());
    }
}

#[test]
fn slots_are_numbered_row_major_then_column_major() {
    let puzzle = Puzzle::parse(".ABC.\nDE.FG\nTROUT\n.MNO.").unwrap();
    assert_eq!(puzzle.nacross(), 5);
    assert_eq!(puzzle.ndown(), 6);
    assert_eq!(puzzle.nslots(), 11);
    assert_eq!(
        texts(&puzzle),
        vec!["ABC", "DE", "FG", "TROUT", "MNO", "DT", "AERM", "B", "ON", "CFUO", "GT"]
    );
}

#[test]
fn slot_letters_are_read_by_index() {
    let puzzle = Puzzle::parse(".ABC.\nDE.FG\nTROUT\n.MNO.").unwrap();
    let slot = puzzle.access(3).unwrap();
    assert_eq!(slot.len(), 5);
    assert_eq!(slot.index(0), 'T');
    assert_eq!(slot.index(4), 'T');
    assert_eq!(slot.index(2), 'O');
    let down = puzzle.access(6).unwrap();
    assert_eq!(down.len(), 4);
    assert_eq!(down.index(0), 'A');
    assert_eq!(down.index(3), 'M');
}

#[test]
fn slot_text_is_the_run_of_the_source() {
    let source = "xy.z\n.pqr\nst.u";
    let puzzle = Puzzle::parse(source).unwrap();
    assert_eq!(
        texts(&puzzle),
        vec!["xy", "z", "pqr", "st", "u", "x", "s", "ypt", "q", "zru"]
    );
}

#[test]
fn access_out_of_range_fails() {
    let puzzle = Puzzle::parse("AB\nCD").unwrap();
    assert_eq!(puzzle.nslots(), 4);
    assert!(puzzle.access(3).is_ok());
    assert_eq!(puzzle.access(4).err(), Some(PuzzleError::IndexOutOfRange));
    assert_eq!(puzzle.access(usize::MAX).err(), Some(PuzzleError::IndexOutOfRange));
}

#[test]
fn fill_rejects_bad_index_and_length() {
    let puzzle = Puzzle::parse("AB\nCD").unwrap();
    assert_eq!(
        puzzle.with_filled_slot(4, "XY").err(),
        Some(PuzzleError::IndexOutOfRange)
    );
    assert_eq!(
        puzzle.with_filled_slot(0, "X").err(),
        Some(PuzzleError::LengthMismatch)
    );
    assert_eq!(
        puzzle.with_filled_slot(0, "XYZ").err(),
        Some(PuzzleError::LengthMismatch)
    );
    // an index out of range is reported whatever the value
    assert_eq!(
        puzzle.with_filled_slot(9, "").err(),
        Some(PuzzleError::IndexOutOfRange)
    );
    assert_eq!(texts(&puzzle), vec!["AB", "CD", "AC", "BD"]);
}

#[test]
fn fill_writes_one_slot_and_leaves_the_puzzle() {
    let puzzle = Puzzle::parse("AB\nCD").unwrap();
    let across = puzzle.with_filled_slot(1, "xy").unwrap();
    assert_eq!(texts(&across), vec!["AB", "xy", "Ax", "By"]);
    let down = puzzle.with_filled_slot(2, "pq").unwrap();
    assert_eq!(texts(&down), vec!["pB", "qD", "pq", "BD"]);
    assert_eq!(texts(&puzzle), vec!["AB", "CD", "AC", "BD"]);
    // the copy has the same slots
    assert_eq!(across.nacross(), 2);
    assert_eq!(across.ndown(), 2);
}

#[test]
fn fill_counts_characters_not_bytes() {
    let puzzle = Puzzle::parse("AB.\n..C").unwrap();
    let filled = puzzle.with_filled_slot(0, "éü").unwrap();
    assert_eq!(filled.access(0).unwrap().to_string(), "éü");
    assert_eq!(filled.access(1).unwrap().to_string(), "C");
}

#[test]
fn a_written_dot_keeps_the_square_open() {
    let puzzle = Puzzle::parse("AB\nCD").unwrap();
    let filled = puzzle.with_filled_slot(0, "..").unwrap();
    assert_eq!(filled.nslots(), 4);
    assert_eq!(texts(&filled), vec!["..", "CD", ".C", ".D"]);
}

#[test]
fn clusters_give_the_same_puzzle_as_text() {
    let rows = vec![
        cluster_row(&[".", "A", "B"]),
        cluster_row(&["C", "D", "."]),
    ];
    let from_rows = Puzzle::from_clusters(&rows).unwrap();
    let from_text = Puzzle::parse(".AB\nCD.").unwrap();
    assert_eq!(texts(&from_rows), texts(&from_text));
    assert_eq!(texts(&from_rows), vec!["AB", "CD", "C", "AD", "B"]);
}

#[test]
fn clusters_are_checked() {
    let short = vec![cluster_row(&["A", "B"]), cluster_row(&["C"])];
    assert_eq!(Puzzle::from_clusters(&short).err(), Some(PuzzleError::RowTooShort));
    let long = vec![cluster_row(&["A"]), cluster_row(&["C", "D"])];
    assert_eq!(Puzzle::from_clusters(&long).err(), Some(PuzzleError::RowTooLong));
    let wide = vec![cluster_row(&["A", "xy"])];
    assert_eq!(
        Puzzle::from_clusters(&wide).err(),
        Some(PuzzleError::MultiCodepointGrapheme)
    );
    let hollow = vec![cluster_row(&["A", ""])];
    assert_eq!(
        Puzzle::from_clusters(&hollow).err(),
        Some(PuzzleError::MultiCodepointGrapheme)
    );
    let none: Vec<Vec<Vec<char>>> = Vec::new();
    assert_eq!(Puzzle::from_clusters(&none).unwrap().nslots(), 0);
}

#[test]
fn error_messages() {
    assert_eq!(PuzzleError::RowTooShort.message(), "a row has too few characters");
    assert_eq!(PuzzleError::RowTooLong.message(), "a row has too many characters");
    assert_eq!(
        PuzzleError::MultiCodepointGrapheme.message(),
        "crossword puzzle can't contain a grapheme cluster composed of more than 1 unicode character"
    );
    assert_eq!(PuzzleError::IndexOutOfRange.message(), "The index is too large!");
    assert_eq!(
        PuzzleError::LengthMismatch.message(),
        "value doesn't have the correct length"
    );
}

#[test]
fn rendering() {
    let puzzle = Puzzle::parse(".AB\nCD.").unwrap();
    assert_eq!(
        puzzle.render(),
        "Grid{\n  .AB\n  CD.\n\nACROSSES:\n ->AB\n ->CD\n\nDOWNS:\n ->C\n ->AD\n ->B\n}"
    );
}
