//! Text handling for the grid format: characters of a string, its rows, and
//! the grapheme clusters of a row.

use vstd::prelude::*;

verus! {

/// The grapheme clusters of a line of text, in order, as extended grapheme
/// clusters of the Unicode segmentation rules.
pub uninterp spec fn graphemes_of(line: Seq<char>) -> Seq<Seq<char>>;

/// The contents of a vector of character vectors.
pub open spec fn views_of(v: Seq<Vec<char>>) -> Seq<Seq<char>> {
    Seq::new(v.len(), |i: int| v[i]@)
}

/// The contents of a vector of rows of clusters.
pub open spec fn cluster_rows_of(v: Seq<Vec<Vec<char>>>) -> Seq<Seq<Seq<char>>> {
    Seq::new(v.len(), |i: int| views_of(v[i]@))
}

/// `UnicodeSegmentation::graphemes(line, true)`: the extended grapheme
/// clusters of `line`. The iterator cuts the text at successive cluster
/// boundaries, so the clusters, put end to end, are the text again.
#[verifier::external_body]
pub(crate) fn graphemes(line: &Vec<char>) -> (clusters: Vec<Vec<char>>)
    ensures
        views_of(clusters@) == graphemes_of(line@),
        views_of(clusters@).flatten() == line@,
{
    let text: String = line.iter().collect();
    unicode_segmentation::UnicodeSegmentation::graphemes(text.as_str(), true)
        .map(|cluster| cluster.chars().collect())
        .collect()
}

/// `String::push`: the character is appended to the end of the string.
#[verifier::external_body]
pub(crate) fn string_push(s: &mut String, c: char)
    ensures
        final(s)@ == old(s)@.push(c),
{
    s.push(c);
}

/// The rows of a text: the pieces between its newline characters. A text
/// without newline is one row; a text of `n` newlines has `n + 1` rows.
pub open spec fn split_lines(text: Seq<char>) -> Seq<Seq<char>>
    decreases text.len(),
{
    if text.len() == 0 {
        seq![Seq::<char>::empty()]
    } else {
        let before = split_lines(text.drop_last());
        if text.last() == '\n' {
            before.push(Seq::<char>::empty())
        } else {
            before.update(before.len() - 1, before.last().push(text.last()))
        }
    }
}

/// The number of characters in all rows together.
pub open spec fn total_len(rows: Seq<Seq<char>>) -> nat
    decreases rows.len(),
{
    if rows.len() == 0 {
        0
    } else {
        total_len(rows.drop_last()) + rows.last().len()
    }
}

/// The characters of a string, in order.
pub fn chars_of(s: &str) -> (chars: Vec<char>)
    ensures
        chars@ == s@,
{
    broadcast use vstd::string::axiom_spec_iter;

    let mut chars: Vec<char> = Vec::new();
    for c in it: s.chars()
        invariant
            it.seq() == s@,
            chars@ == it.seq().take(it.index()),
    {
        chars.push(c);
    }
    chars
}

/// The rows of a text hold all its characters but the newlines between them.
pub proof fn lemma_split_lines_len(text: Seq<char>)
    ensures
        split_lines(text).len() >= 1,
        total_len(split_lines(text)) + split_lines(text).len() == text.len() + 1,
    decreases text.len(),
{
    if text.len() == 0 {
        let rows = seq![Seq::<char>::empty()];
        assert(rows.drop_last() =~= Seq::<Seq<char>>::empty());
        assert(total_len(rows.drop_last()) == 0);
    } else {
        lemma_split_lines_len(text.drop_last());
        let before = split_lines(text.drop_last());
        if text.last() == '\n' {
            assert(before.push(Seq::<char>::empty()).drop_last() =~= before);
        } else {
            let after = before.update(before.len() - 1, before.last().push(text.last()));
            assert(after.drop_last() =~= before.drop_last());
        }
    }
}

/// Splits a text into its rows at the newline characters.
pub fn lines_of(text: &Vec<char>) -> (rows: Vec<Vec<char>>)
    ensures
        views_of(rows@) == split_lines(text@),
{
    let mut rows: Vec<Vec<char>> = Vec::new();
    let mut current: Vec<char> = Vec::new();
    let mut i: usize = 0;
    while i < text.len()
        invariant
            i <= text.len(),
            views_of(rows@).push(current@) == split_lines(text@.take(i as int)),
        decreases text.len() - i,
    {
        let c = text[i];
        let ghost before = views_of(rows@).push(current@);
        proof {
            assert(text@.take(i as int + 1).drop_last() =~= text@.take(i as int));
        }
        if c == '\n' {
            rows.push(current);
            current = Vec::new();
            proof {
                assert(views_of(rows@).push(current@) =~= before.push(Seq::<char>::empty()));
            }
        } else {
            current.push(c);
            proof {
                assert(views_of(rows@).push(current@) =~= before.update(
                    before.len() - 1,
                    before.last().push(c),
                ));
            }
        }
        i += 1;
    }
    proof {
        assert(text@.take(i as int) =~= text@);
        assert(views_of(rows@.push(current)) =~= views_of(rows@).push(current@));
    }
    rows.push(current);
    rows
}

} // verus!
