//! The lines of the text files that the language models are made of.
//!
//! A line of the unigram file holds a word and its score with a space
//! between them; a line of the bigram file holds two words with a tab
//! between them, a space, and the score of the pair. A score is a number
//! in text; whoever reads the file turns it into the 32 bits of an IEEE
//! 754 number, and the functions here turn those into a cost.
use vstd::prelude::*;
use crate::lm::codec::{cost_from_f32_bits, cost_of_bits};
use crate::lm::system_bigram::{pair_key, SystemBigramLMBuilder};
use crate::lm::system_unigram_lm::{position_of, SystemUnigramLM, SystemUnigramLMBuilder, UnigramError, MAX_WORDS};
use crate::text::{find_char, first_index, split, split_from, strings_view, substring, to_chars};

verus! {

/// Why a line was not taken.
#[derive(Clone, Copy, Debug, PartialEq, Eq, Structural)]
pub enum CorpusError {
    /// The score is infinite, not a number, or too large for a cost.
    BadScore,
    /// The unigram model already holds the word.
    DuplicateWord,
    /// The unigram model is full.
    TooManyWords,
}

/// Whether `c` is white space.
pub open spec fn is_white_space(c: char) -> bool {
    let u = c as u32;
    ||| 0x09 <= u <= 0x0d
    ||| u == 0x20
    ||| u == 0x85
    ||| u == 0xa0
    ||| u == 0x1680
    ||| 0x2000 <= u <= 0x200a
    ||| u == 0x2028
    ||| u == 0x2029
    ||| u == 0x202f
    ||| u == 0x205f
    ||| u == 0x3000
}

/// Whether `s[a..b]` is `s` without the white space at its ends.
pub open spec fn is_trimmed(s: Seq<char>, a: int, b: int) -> bool {
    &&& 0 <= a <= b <= s.len()
    &&& forall|i: int| 0 <= i < a ==> is_white_space(#[trigger] s[i])
    &&& forall|i: int| b <= i < s.len() ==> is_white_space(#[trigger] s[i])
    &&& a < b ==> !is_white_space(s[a]) && !is_white_space(s[b - 1])
    &&& a == b ==> a == s.len()
}

/// A word and the text of its score: what stands before and after the
/// first space of the line without the white space at its ends.
pub open spec fn is_unigram_line(line: Seq<char>, word: Seq<char>, score: Seq<char>) -> bool {
    exists|a: int, b: int|
        {
            &&& #[trigger] is_trimmed(line, a, b)
            &&& first_index(line.subrange(a, b), ' ') < b - a
            &&& word == line.subrange(a, b).take(first_index(line.subrange(a, b), ' '))
            &&& score == line.subrange(a, b).skip(first_index(line.subrange(a, b), ' ') + 1)
        }
}

/// Whether `line` has a space between its ends after the white space is
/// taken off them.
pub open spec fn has_unigram_line(line: Seq<char>) -> bool {
    exists|a: int, b: int|
        #[trigger] is_trimmed(line, a, b) && first_index(line.subrange(a, b), ' ') < b - a
}

/// Whether `c` is white space.
pub fn white_space(c: char) -> (b: bool)
    ensures
        b == is_white_space(c),
{
    let u: u32 = c as u32;
    (0x09 <= u && u <= 0x0d) || u == 0x20 || u == 0x85 || u == 0xa0 || u == 0x1680 || (0x2000 <= u
        && u <= 0x200a) || u == 0x2028 || u == 0x2029 || u == 0x202f || u == 0x205f || u == 0x3000
}

/// A line is trimmed in one way only.
pub proof fn lemma_trimmed_once(s: Seq<char>, a: int, b: int, c: int, d: int)
    requires
        is_trimmed(s, a, b),
        is_trimmed(s, c, d),
    ensures
        a == c,
        b == d,
{
    if a < c {
        if a < b {
            assert(is_white_space(s[a]));
        }
    } else if c < a {
        if c < d {
            assert(is_white_space(s[c]));
        }
    }
    if b < d {
        if c < d {
            assert(is_white_space(s[d - 1]));
        }
    } else if d < b {
        if a < b {
            assert(is_white_space(s[b - 1]));
        }
    }
}

/// The word and the text of the score of a line of the unigram file, or
/// `None` for a line without a space between its ends.
pub fn parse_unigram_line(line: &str) -> (r: Option<(String, String)>)
    ensures
        r is Some <==> has_unigram_line(line@),
        r matches Some(pair) ==> is_unigram_line(line@, pair.0@, pair.1@),
{
    let chars = to_chars(line);
    let mut a: usize = 0;
    while a < chars.len() && white_space(chars[a])
        invariant
            a <= chars.len(),
            forall|i: int| 0 <= i < a ==> is_white_space(#[trigger] chars[i]),
        decreases chars.len() - a,
    {
        a = a + 1;
    }
    let mut b: usize = chars.len();
    while b > a && white_space(chars[b - 1])
        invariant
            a <= b <= chars.len(),
            forall|i: int| b <= i < chars.len() ==> is_white_space(#[trigger] chars[i]),
        decreases b,
    {
        b = b - 1;
    }
    assert(is_trimmed(chars@, a as int, b as int));
    let ghost body = chars@.subrange(a as int, b as int);
    let mut at: usize = a;
    while at < b && chars[at] != ' '
        invariant
            a <= at <= b <= chars.len(),
            forall|i: int| a <= i < at ==> chars[i] != ' ',
        decreases b - at,
    {
        at = at + 1;
    }
    proof {
        crate::text::lemma_first_index(body, ' ', at - a);
        assert forall|c: int, d: int| #[trigger] is_trimmed(line@, c, d) implies c == a && d == b by {
            lemma_trimmed_once(line@, a as int, b as int, c, d);
        }
    }
    if at >= b {
        return None;
    }
    let word = substring(&chars, a, at);
    let score = substring(&chars, at + 1, b);
    proof {
        assert(word@ =~= body.take(at - a));
        assert(score@ =~= body.skip(at - a + 1));
    }
    Some((word, score))
}

/// The two words and the text of the score of a line of the bigram file:
/// the line has one space, and a tab before it.
pub open spec fn bigram_line(line: Seq<char>) -> Option<(Seq<char>, Seq<char>, Seq<char>)> {
    let tokens = split(line, ' ');
    if tokens.len() != 2 || first_index(tokens[0], '\t') >= tokens[0].len() {
        None
    } else {
        Some(
            (
                tokens[0].take(first_index(tokens[0], '\t')),
                tokens[0].skip(first_index(tokens[0], '\t') + 1),
                tokens[1],
            ),
        )
    }
}

/// The two words and the text of the score of a line of the bigram file,
/// or `None` for a line of another form.
pub fn parse_2gram_line(line: &str) -> (r: Option<(String, String, String)>)
    ensures
        match bigram_line(line@) {
            Some(parts) => r matches Some(found) && found.0@ == parts.0 && found.1@ == parts.1
                && found.2@ == parts.2,
            None => r is None,
        },
{
    let chars = to_chars(line);
    assert(chars@.skip(0) =~= chars@);
    let mut tokens = split_from(&chars, 0, ' ');
    if tokens.len() != 2 {
        return None;
    }
    assert(strings_view(tokens@)[0] == tokens@[0]@);
    assert(strings_view(tokens@)[1] == tokens@[1]@);
    let score = tokens.pop().unwrap();
    let words = to_chars(tokens[0].as_str());
    assert(words@.skip(0) =~= words@);
    let at = find_char(&words, 0, '\t');
    if at >= words.len() {
        return None;
    }
    let first = substring(&words, 0, at);
    let second = substring(&words, at + 1, words.len());
    proof {
        assert(first@ =~= words@.take(at as int));
        assert(second@ =~= words@.skip(at + 1));
    }
    Some((first, second, score))
}

/// Adds the word of a line of the unigram file, with the score that has
/// the IEEE 754 bits `bits`, and returns the id of the word.
pub fn add_unigram(builder: &mut SystemUnigramLMBuilder, word: &String, bits: u32) -> (r: Result<
    u32,
    CorpusError,
>)
    requires
        old(builder).wf(),
    ensures
        final(builder).wf(),
        match r {
            Ok(id) => {
                &&& cost_of_bits(bits as int) is Some
                &&& !old(builder).words().contains(word@)
                &&& id == old(builder).words().len()
                &&& final(builder).words() == old(builder).words().push(word@)
                &&& final(builder).costs() == old(builder).costs().push(
                    cost_of_bits(bits as int)->0 as i64,
                )
            },
            Err(e) => {
                &&& final(builder).words() == old(builder).words()
                &&& final(builder).costs() == old(builder).costs()
                &&& e == CorpusError::BadScore <==> cost_of_bits(bits as int) is None
                &&& e == CorpusError::DuplicateWord <==> cost_of_bits(bits as int) is Some && old(
                    builder,
                ).words().contains(word@)
                &&& e == CorpusError::TooManyWords <==> cost_of_bits(bits as int) is Some && !old(
                    builder,
                ).words().contains(word@) && old(builder).words().len() == MAX_WORDS
            },
        },
{
    let cost = match cost_from_f32_bits(bits) {
        Some(cost) => cost,
        None => {
            return Err(CorpusError::BadScore);
        },
    };
    match builder.add(word, cost) {
        Ok(id) => Ok(id),
        Err(UnigramError::DuplicateWord) => Err(CorpusError::DuplicateWord),
        Err(UnigramError::TooManyWords) => Err(CorpusError::TooManyWords),
        Err(UnigramError::CostOutOfRange) => Err(CorpusError::BadScore),
    }
}

/// Adds the pair of a line of the bigram file, with the score that has
/// the IEEE 754 bits `bits`, and says whether it was added: a pair with a
/// word that the unigram model does not hold is passed over.
pub fn add_2gram(
    builder: &mut SystemBigramLMBuilder,
    unigram: &SystemUnigramLM,
    word1: &str,
    word2: &str,
    bits: u32,
) -> (r: Result<bool, CorpusError>)
    requires
        old(builder).wf(),
        unigram.wf(),
    ensures
        final(builder).wf(),
        match r {
            Ok(added) => {
                &&& added <==> position_of(unigram.words(), word1@) is Some && position_of(
                    unigram.words(),
                    word2@,
                ) is Some
                &&& !added ==> final(builder).costs() == old(builder).costs()
                &&& added ==> cost_of_bits(bits as int) is Some && final(builder).costs() == old(
                    builder,
                ).costs().insert(
                    pair_key(
                        position_of(unigram.words(), word1@)->0,
                        position_of(unigram.words(), word2@)->0,
                    ) as u64,
                    cost_of_bits(bits as int)->0 as i64,
                )
            },
            Err(e) => {
                &&& final(builder).costs() == old(builder).costs()
                &&& position_of(unigram.words(), word1@) is Some
                &&& position_of(unigram.words(), word2@) is Some
                &&& cost_of_bits(bits as int) is None
                &&& e == CorpusError::BadScore
            },
        },
{
    proof {
        unigram.lemma_wf();
    }
    let id1 = match unigram.find(word1) {
        Some((id, _)) => id,
        None => {
            return Ok(false);
        },
    };
    let id2 = match unigram.find(word2) {
        Some((id, _)) => id,
        None => {
            return Ok(false);
        },
    };
    let cost = match cost_from_f32_bits(bits) {
        Some(cost) => cost,
        None => {
            return Err(CorpusError::BadScore);
        },
    };
    match builder.add(id1, id2, cost) {
        Ok(_) => Ok(true),
        Err(_) => Err(CorpusError::BadScore),
    }
}

} // verus!
