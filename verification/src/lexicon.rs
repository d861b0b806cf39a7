//! The lexicon: a list of words, kept by length, that answers which words
//! fit a slot.

use crate::puzzle::Slot;
use crate::text::{chars_of, string_push};
use vstd::prelude::*;
use vstd::string::{StrSliceExecFns, StringExecFnsIsAscii};
use vstd::utf8::is_ascii_chars;

verus! {

/// The upper-case form of an ASCII letter; any other character is itself.
pub open spec fn ascii_upper(c: char) -> char {
    if 'a' <= c && c <= 'z' {
        ((c as u8) - 32) as char
    } else {
        c
    }
}

/// A word with every ASCII letter in upper case.
pub open spec fn upper_word(word: Seq<char>) -> Seq<char> {
    Seq::new(word.len(), |i: int| ascii_upper(word[i]))
}

/// The contents of a list of strings.
pub open spec fn texts_of(words: Seq<String>) -> Seq<Seq<char>> {
    Seq::new(words.len(), |i: int| words[i]@)
}

/// The words of length `n` that a lexicon built from `words` holds: each
/// ASCII word of that length, in upper case, once, in the order in which the
/// words first occur.
pub open spec fn bucket_of(words: Seq<Seq<char>>, n: nat) -> Seq<Seq<char>>
    decreases words.len(),
{
    if words.len() == 0 {
        Seq::empty()
    } else {
        let earlier = bucket_of(words.drop_last(), n);
        let word = upper_word(words.last());
        if is_ascii_chars(words.last()) && word.len() == n && !earlier.contains(word) {
            earlier.push(word)
        } else {
            earlier
        }
    }
}

/// The number of words that a lexicon built from `words` holds.
pub open spec fn word_count(words: Seq<Seq<char>>) -> nat
    decreases words.len(),
{
    if words.len() == 0 {
        0
    } else {
        let word = upper_word(words.last());
        let earlier = bucket_of(words.drop_last(), word.len());
        if is_ascii_chars(words.last()) && !earlier.contains(word) {
            word_count(words.drop_last()) + 1
        } else {
            word_count(words.drop_last())
        }
    }
}

/// The number of words of `words` that a lexicon leaves out because they are
/// not ASCII.
pub open spec fn skipped_count(words: Seq<Seq<char>>) -> nat
    decreases words.len(),
{
    if words.len() == 0 {
        0
    } else if is_ascii_chars(words.last()) {
        skipped_count(words.drop_last())
    } else {
        skipped_count(words.drop_last()) + 1
    }
}

/// `word` fits `pattern`: it has the pattern's length and, wherever the
/// pattern is not a blank, the pattern's letter in upper case.
pub open spec fn fits(pattern: Seq<char>, word: Seq<char>) -> bool {
    &&& word.len() == pattern.len()
    &&& forall|i: int|
        0 <= i < pattern.len() ==> pattern[i] == ' ' || ascii_upper(pattern[i]) == #[trigger] word[i]
}

/// The words of `bucket` that fit `pattern`, in the order of the bucket.
pub open spec fn candidates(bucket: Seq<Seq<char>>, pattern: Seq<char>) -> Seq<Seq<char>> {
    bucket.filter(|word: Seq<char>| fits(pattern, word))
}

/// The number of words in all of `buckets`.
pub open spec fn total_words(buckets: Seq<Vec<String>>) -> nat
    decreases buckets.len(),
{
    if buckets.len() == 0 {
        0
    } else {
        total_words(buckets.drop_last()) + buckets.last()@.len()
    }
}

/// The upper-case form of an ASCII letter; any other character is itself.
pub fn to_ascii_upper(c: char) -> (upper: char)
    ensures
        upper == ascii_upper(c),
{
    if c >= 'a' && c <= 'z' {
        ((c as u8) - 32) as char
    } else {
        c
    }
}

/// A copy of `word` with every ASCII letter in upper case.
pub fn to_upper_word(word: &str) -> (upper: String)
    ensures
        upper@ == upper_word(word@),
{
    let letters = chars_of(word);
    let mut upper = String::new();
    let mut i: usize = 0;
    while i < letters.len()
        invariant
            letters@ == word@,
            i <= letters@.len(),
            upper@ == upper_word(word@).take(i as int),
        decreases letters@.len() - i,
    {
        let c = to_ascii_upper(letters[i]);
        string_push(&mut upper, c);
        proof {
            assert(upper_word(word@).take(i as int + 1) =~= upper_word(word@).take(i as int).push(c));
        }
        i += 1;
    }
    proof {
        assert(upper_word(word@).take(letters@.len() as int) =~= upper_word(word@));
    }
    upper
}

/// Every word of a bucket has the bucket's length and is ASCII, and no word
/// occurs in it twice.
pub proof fn lemma_bucket_of(words: Seq<Seq<char>>, n: nat)
    ensures
        forall|i: int|
            0 <= i < bucket_of(words, n).len() ==> (#[trigger] bucket_of(words, n)[i]).len() == n
                && is_ascii_chars(bucket_of(words, n)[i]),
        bucket_of(words, n).no_duplicates(),
        bucket_of(words, n).len() <= words.len(),
    decreases words.len(),
{
    if words.len() > 0 {
        lemma_bucket_of(words.drop_last(), n);
    }
}

/// The words of a lexicon are in upper case: every word in a bucket is its
/// own upper-case form.
pub proof fn lemma_bucket_is_upper(words: Seq<Seq<char>>, n: nat, i: int)
    requires
        0 <= i < bucket_of(words, n).len(),
    ensures
        upper_word(bucket_of(words, n)[i]) == bucket_of(words, n)[i],
    decreases words.len(),
{
    if words.len() > 0 {
        let earlier = bucket_of(words.drop_last(), n);
        if i < earlier.len() {
            lemma_bucket_is_upper(words.drop_last(), n, i);
        } else {
            let word = upper_word(words.last());
            assert(upper_word(word) =~= word);
        }
    }
}

/// A word that fits a pattern has the pattern's length and agrees with it,
/// up to the case of the pattern's letters, wherever the pattern is not a
/// blank; and every word returned for a pattern fits it and comes from the
/// bucket.
pub proof fn lemma_candidates_fit(bucket: Seq<Seq<char>>, pattern: Seq<char>, i: int)
    requires
        0 <= i < candidates(bucket, pattern).len(),
    ensures
        bucket.contains(candidates(bucket, pattern)[i]),
        candidates(bucket, pattern)[i].len() == pattern.len(),
        forall|j: int|
            0 <= j < pattern.len() && pattern[j] != ' ' ==> ascii_upper(pattern[j])
                == #[trigger] candidates(bucket, pattern)[i][j],
{
    let pred = |word: Seq<char>| fits(pattern, word);
    bucket.lemma_filter_pred(pred, i);
    bucket.lemma_filter_contains_rev(pred, bucket.filter(pred)[i]);
}

/// No word is returned twice for a pattern from a bucket without
/// duplicates, and no word of the bucket that fits is left out.
pub proof fn lemma_candidates_complete(bucket: Seq<Seq<char>>, pattern: Seq<char>)
    requires
        bucket.no_duplicates(),
    ensures
        candidates(bucket, pattern).no_duplicates(),
        forall|word: Seq<char>|
            bucket.contains(word) && fits(pattern, word) ==> #[trigger] candidates(
                bucket,
                pattern,
            ).contains(word),
    decreases bucket.len(),
{
    let pred = |word: Seq<char>| fits(pattern, word);
    reveal(Seq::filter);
    if bucket.len() > 0 {
        let rest = bucket.drop_last();
        lemma_candidates_complete(rest, pattern);
        assert forall|word: Seq<char>| bucket.contains(word) && fits(pattern, word) implies #[trigger] candidates(
            bucket,
            pattern,
        ).contains(word) by {
            let at = choose|k: int| 0 <= k < bucket.len() && bucket[k] == word;
            if at < rest.len() {
                assert(rest[at] == word);
                assert(rest.contains(word));
                assert(candidates(rest, pattern).contains(word));
                let found = choose|k: int|
                    0 <= k < candidates(rest, pattern).len() && candidates(rest, pattern)[k] == word;
                assert(candidates(bucket, pattern)[found] == word);
            } else {
                assert(candidates(bucket, pattern).last() == word);
            }
        }
        if pred(bucket.last()) {
            if candidates(rest, pattern).contains(bucket.last()) {
                rest.lemma_filter_contains_rev(pred, bucket.last());
                let k = choose|k: int| 0 <= k < rest.len() && rest[k] == bucket.last();
                assert(bucket[k] == bucket[bucket.len() - 1]);
            }
        }
    }
}

/// The words in the first buckets are no more than the words in all.
proof fn lemma_total_words_take(buckets: Seq<Vec<String>>, n: int)
    requires
        0 <= n <= buckets.len(),
    ensures
        total_words(buckets.take(n)) <= total_words(buckets),
    decreases buckets.len(),
{
    if n < buckets.len() {
        lemma_total_words_take(buckets.drop_last(), n);
        assert(buckets.drop_last().take(n) =~= buckets.take(n));
    } else {
        assert(buckets.take(n) =~= buckets);
    }
}

/// Changing one bucket changes the total by the change of its length.
proof fn lemma_total_words_update(buckets: Seq<Vec<String>>, n: int, bucket: Vec<String>)
    requires
        0 <= n < buckets.len(),
    ensures
        total_words(buckets.update(n, bucket)) == total_words(buckets) - buckets[n]@.len()
            + bucket@.len(),
    decreases buckets.len(),
{
    if n < buckets.len() - 1 {
        lemma_total_words_update(buckets.drop_last(), n, bucket);
        assert(buckets.update(n, bucket).drop_last() =~= buckets.drop_last().update(n, bucket));
    } else {
        assert(buckets.update(n, bucket).drop_last() =~= buckets.drop_last());
    }
}

/// Whether `word` is among `bucket`.
fn bucket_contains(bucket: &Vec<String>, word: &String) -> (found: bool)
    ensures
        found == texts_of(bucket@).contains(word@),
{
    let mut i: usize = 0;
    while i < bucket.len()
        invariant
            i <= bucket@.len(),
            forall|j: int| 0 <= j < i ==> texts_of(bucket@)[j] != word@,
        decreases bucket@.len() - i,
    {
        if bucket[i] == *word {
            assert(texts_of(bucket@)[i as int] == word@);
            return true;
        }
        i += 1;
    }
    false
}

/// Whether `word` fits the slot taken as a pattern.
fn word_fits(slot: &Slot, word: &String) -> (fit: bool)
    requires
        word@.len() == slot@.len(),
        is_ascii_chars(word@),
    ensures
        fit == fits(slot@, word@),
{
    let n = slot.len();
    let mut i: usize = 0;
    while i < n
        invariant
            n == slot@.len(),
            word@.len() == slot@.len(),
            is_ascii_chars(word@),
            i <= n,
            forall|j: int|
                0 <= j < i ==> slot@[j] == ' ' || ascii_upper(slot@[j]) == #[trigger] word@[j],
        decreases n - i,
    {
        let wanted = slot.index(i);
        let letter = word.as_str().get_ascii(i);
        if wanted != ' ' && to_ascii_upper(wanted) != letter as char {
            proof {
                assert(ascii_upper(slot@[i as int]) != word@[i as int]);
            }
            return false;
        }
        i += 1;
    }
    true
}

/// A word list for crossword filling. Words are kept in upper case, each
/// once, by their length; words that are not ASCII are left out.
pub struct Lexicon {
    words: Vec<Vec<String>>,
    empty_set: Vec<String>,
    skipped: usize,
}

impl Lexicon {
    #[verifier::type_invariant]
    spec fn inv(self) -> bool {
        &&& self.empty_set@.len() == 0
        &&& total_words(self.words@) <= usize::MAX
        &&& forall|n: int, i: int|
            0 <= n < self.words@.len() && 0 <= i < self.words@[n]@.len() ==> (
            #[trigger] self.words@[n]@[i])@.len() == n && is_ascii_chars(self.words@[n]@[i]@)
        &&& forall|n: int|
            0 <= n < self.words@.len() ==> texts_of(#[trigger] self.words@[n]@).no_duplicates()
    }

    /// The words of length `n`, in the order in which they are kept.
    pub closed spec fn bucket(&self, n: nat) -> Seq<Seq<char>> {
        if n < self.words@.len() {
            texts_of(self.words@[n as int]@)
        } else {
            Seq::empty()
        }
    }

    /// The number of words in the lexicon.
    pub closed spec fn size(&self) -> nat {
        total_words(self.words@)
    }

    /// A length from which on the lexicon has no words.
    pub closed spec fn span(&self) -> nat {
        self.words@.len()
    }

    /// The number of words shorter than `n`.
    pub open spec fn count_below(&self, n: nat) -> nat
        decreases n,
    {
        if n == 0 {
            0
        } else {
            self.count_below((n - 1) as nat) + self.bucket((n - 1) as nat).len()
        }
    }

    /// The words in the first `n` buckets are the words shorter than `n`.
    proof fn lemma_count_below(&self, n: nat)
        requires
            n <= self.words@.len(),
        ensures
            total_words(self.words@.take(n as int)) == self.count_below(n),
        decreases n,
    {
        if n > 0 {
            self.lemma_count_below((n - 1) as nat);
            assert(self.words@.take(n as int).drop_last() =~= self.words@.take(n - 1));
        }
    }

    /// The size of a lexicon is the number of words in all its buckets: no
    /// word is as long as the span, and the words shorter than the span are
    /// all there are.
    pub proof fn lemma_size(&self)
        ensures
            self.size() == self.count_below(self.span()),
            forall|n: nat| n >= self.span() ==> self.bucket(n) == Seq::<Seq<char>>::empty(),
    {
        self.lemma_count_below(self.words@.len());
        assert(self.words@.take(self.words@.len() as int) =~= self.words@);
    }

    /// The number of words that were left out when the lexicon was built.
    pub closed spec fn skipped_words(&self) -> nat {
        self.skipped as nat
    }

    /// A lexicon without words.
    pub fn empty() -> (lexicon: Self)
        ensures
            forall|n: nat| lexicon.bucket(n) == Seq::<Seq<char>>::empty(),
            lexicon.size() == 0,
            lexicon.skipped_words() == 0,
    {
        let lexicon = Lexicon { words: Vec::new(), empty_set: Vec::new(), skipped: 0 };
        proof {
            assert(lexicon.words@ =~= Seq::<Vec<String>>::empty());
        }
        lexicon
    }

    /// A lexicon of the given words. Words that are not ASCII are left out
    /// and counted; the others are put in upper case and kept once each.
    pub fn from_words(words: Vec<String>) -> (lexicon: Self)
        ensures
            forall|n: nat| lexicon.bucket(n) == bucket_of(texts_of(words@), n),
            lexicon.size() == word_count(texts_of(words@)),
            lexicon.skipped_words() == skipped_count(texts_of(words@)),
    {
        let ghost texts = texts_of(words@);
        let mut buckets: Vec<Vec<String>> = Vec::new();
        let mut skipped: usize = 0;
        let mut k: usize = 0;
        while k < words.len()
            invariant
                texts == texts_of(words@),
                k <= words@.len(),
                forall|n: int|
                    0 <= n < buckets@.len() ==> texts_of(#[trigger] buckets@[n]@) == bucket_of(
                        texts.take(k as int),
                        n as nat,
                    ),
                forall|n: nat|
                    n >= buckets@.len() ==> #[trigger] bucket_of(texts.take(k as int), n) == Seq::<
                        Seq<char>,
                    >::empty(),
                total_words(buckets@) == word_count(texts.take(k as int)),
                skipped == skipped_count(texts.take(k as int)),
                word_count(texts.take(k as int)) + skipped <= k,
            decreases words@.len() - k,
        {
            let word = &words[k];
            let ghost seen = texts.take(k as int);
            let ghost now = texts.take(k as int + 1);
            proof {
                assert(now.drop_last() =~= seen);
                assert(now.last() == word@);
            }
            if !word.is_ascii() {
                skipped += 1;
            } else {
                let upper = to_upper_word(word.as_str());
                let n = upper.as_str().unicode_len();
                while buckets.len() <= n
                    invariant
                        forall|m: int|
                            0 <= m < buckets@.len() ==> texts_of(#[trigger] buckets@[m]@) == bucket_of(
                                seen,
                                m as nat,
                            ),
                        forall|m: nat|
                            m >= buckets@.len() ==> #[trigger] bucket_of(seen, m) == Seq::<
                                Seq<char>,
                            >::empty(),
                        total_words(buckets@) == word_count(seen),
                    decreases n + 1 - buckets@.len(),
                {
                    let ghost before = buckets@;
                    let fresh: Vec<String> = Vec::new();
                    proof {
                        assert(texts_of(fresh@) =~= Seq::<Seq<char>>::empty());
                        assert(before.push(fresh).drop_last() =~= before);
                    }
                    buckets.push(fresh);
                }
                let ghost before = buckets@;
                let ghost earlier = bucket_of(seen, n as nat);
                if !bucket_contains(&buckets[n], &upper) {
                    let mut bucket = buckets.remove(n);
                    bucket.push(upper);
                    proof {
                        assert(texts_of(bucket@) =~= earlier.push(upper@));
                        lemma_total_words_update(before, n as int, bucket);
                        assert(before.remove(n as int).insert(n as int, bucket) =~= before.update(
                            n as int,
                            bucket,
                        ));
                    }
                    buckets.insert(n, bucket);
                }
            }
            proof {
                assert forall|m: nat| m >= buckets@.len() implies #[trigger] bucket_of(now, m)
                    == Seq::<Seq<char>>::empty() by {
                    assert(bucket_of(seen, m) == Seq::<Seq<char>>::empty());
                }
            }
            k += 1;
        }
        proof {
            assert(texts.take(k as int) =~= texts);
            assert forall|n: int, i: int|
                0 <= n < buckets@.len() && 0 <= i < buckets@[n]@.len() implies (
            #[trigger] buckets@[n]@[i])@.len() == n && is_ascii_chars(buckets@[n]@[i]@) by {
                lemma_bucket_of(texts, n as nat);
                assert(texts_of(buckets@[n]@)[i] == buckets@[n]@[i]@);
            }
            assert forall|n: int| 0 <= n < buckets@.len() implies texts_of(
                #[trigger] buckets@[n]@,
            ).no_duplicates() by {
                lemma_bucket_of(texts, n as nat);
            }
        }
        Lexicon { words: buckets, empty_set: Vec::new(), skipped }
    }

    /// The words that fit a slot: those of the slot's length that have, at
    /// every position where the slot does not hold a blank, the slot's letter
    /// in upper case. They come in the order in which the lexicon keeps them,
    /// each once.
    pub fn possible_answers(&self, slot: &Slot) -> (answers: Vec<String>)
        ensures
            texts_of(answers@) == candidates(self.bucket(slot@.len()), slot@),
            texts_of(answers@).no_duplicates(),
            forall|i: int| 0 <= i < answers@.len() ==> (#[trigger] answers@[i])@.len() == slot@.len(),
            forall|i: int, j: int|
                0 <= i < answers@.len() && 0 <= j < slot@.len() && slot@[j] != ' ' ==> (
                #[trigger] answers@[i])@[j] == ascii_upper(#[trigger] slot@[j]),
    {
        let length = slot.len();
        let bucket = self.words_by_length(length);
        let ghost pattern = slot@;
        let ghost pred = |word: Seq<char>| fits(pattern, word);
        let ghost all = texts_of(bucket@);
        let mut answers: Vec<String> = Vec::new();
        let mut k: usize = 0;
        proof {
            reveal(Seq::filter);
            assert(all.take(0).filter(pred) =~= Seq::<Seq<char>>::empty());
        }
        while k < bucket.len()
            invariant
                pattern == slot@,
                pred == |word: Seq<char>| fits(pattern, word),
                all == texts_of(bucket@),
                k <= bucket@.len(),
                forall|i: int|
                    0 <= i < bucket@.len() ==> (#[trigger] bucket@[i])@.len() == pattern.len()
                        && is_ascii_chars(bucket@[i]@),
                all.no_duplicates(),
                texts_of(answers@) == all.take(k as int).filter(pred),
            decreases bucket@.len() - k,
        {
            let word = &bucket[k];
            let ghost before = texts_of(answers@);
            proof {
                assert(all.take(k as int + 1) =~= all.take(k as int).push(word@));
                all.take(k as int).lemma_filter_push(word@, pred);
            }
            if word_fits(slot, word) {
                answers.push(word.clone());
                proof {
                    assert(texts_of(answers@) =~= before.push(word@));
                }
            }
            k += 1;
        }
        proof {
            assert(all.take(k as int) =~= all);
            lemma_candidates_complete(all, pattern);
            assert forall|i: int| 0 <= i < answers@.len() implies (#[trigger] answers@[i])@.len()
                == pattern.len() && (forall|j: int|
                0 <= j < pattern.len() && pattern[j] != ' ' ==> answers@[i]@[j] == ascii_upper(
                    #[trigger] pattern[j],
                )) by {
                lemma_candidates_fit(all, pattern, i);
                assert(texts_of(answers@)[i] == answers@[i]@);
            }
        }
        answers
    }

    /// The number of words in the lexicon.
    pub fn len(&self) -> (n: usize)
        ensures
            n == self.size(),
            n == self.count_below(self.span()),
    {
        proof {
            use_type_invariant(self);
            self.lemma_size();
        }
        let mut total: usize = 0;
        let mut i: usize = 0;
        while i < self.words.len()
            invariant
                i <= self.words@.len(),
                total == total_words(self.words@.take(i as int)),
                total_words(self.words@) <= usize::MAX,
            decreases self.words@.len() - i,
        {
            proof {
                lemma_total_words_take(self.words@, i as int + 1);
                assert(self.words@.take(i as int + 1).drop_last() =~= self.words@.take(i as int));
            }
            total = total + self.words[i].len();
            i += 1;
        }
        proof {
            assert(self.words@.take(i as int) =~= self.words@);
        }
        total
    }

    /// The number of words that were left out, for not being ASCII, when the
    /// lexicon was built.
    pub fn skipped(&self) -> (n: usize)
        ensures
            n == self.skipped_words(),
    {
        self.skipped
    }

    /// The words of the given length. There are none where the lexicon has
    /// no word of that length.
    pub fn words_by_length(&self, length: usize) -> (words: &Vec<String>)
        ensures
            texts_of(words@) == self.bucket(length as nat),
            forall|i: int|
                0 <= i < words@.len() ==> (#[trigger] words@[i])@.len() == length && is_ascii_chars(
                    words@[i]@,
                ),
            texts_of(words@).no_duplicates(),
    {
        proof {
            use_type_invariant(self);
        }
        if length >= self.words.len() {
            proof {
                assert(texts_of(self.empty_set@) =~= Seq::<Seq<char>>::empty());
            }
            &self.empty_set
        } else {
            &self.words[length]
        }
    }
}

} // verus!
