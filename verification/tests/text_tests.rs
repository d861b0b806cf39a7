use xw::text::{chars_of, lines_of};

fn line(text: &str) -> Vec<char> {
    text.chars().collect()
}

#[test]
fn characters_of_a_string() {
    assert_eq!(chars_of("aé\n."), vec!['a', 'é', '\n', '.']);
    assert_eq!(chars_of(""), Vec::<char>::new());
}

#[test]
fn rows_are_split_at_newlines() {
    assert_eq!(lines_of(&line("ab\ncd")), vec![line("ab"), line("cd")]);
    assert_eq!(lines_of(&line("")), vec![line("")]);
    assert_eq!(lines_of(&line("\n")), vec![line(""), line("")]);
    assert_eq!(lines_of(&line("a\n\nb\n")), vec![line("a"), line(""), line("b"), line("")]);
    assert_eq!(lines_of(&line("a\r\nb")), vec![line("a\r"), line("b")]);
}

#[test]
fn rows_agree_with_split() {
    for text in ["", "x", "\n", "ab\ncd\n", "\n\nab", "a\nb\nc"] {
        let expected: Vec<Vec<char>> = text.split('\n').map(|row| row.chars().collect()).collect();
        assert_eq!(lines_of(&line(text)), expected);
    }
}
