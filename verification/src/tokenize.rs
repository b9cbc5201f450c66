//! The tokenizer: splits a sanitized line on runs of white space.

use vstd::prelude::*;
use crate::diagnostic::spaced;
use crate::text::{chars_of, is_whitespace, text_between, white_space};

verus! {

/// The length of the word at the front of `text`: the number of characters
/// before the first white space, or before the end.
pub open spec fn word_len(text: Seq<char>) -> nat
    decreases text.len(),
{
    if text.len() == 0 || white_space(text[0]) {
        0
    } else {
        1 + word_len(text.drop_first())
    }
}

/// The tokens of a line: its maximal runs of characters that are no white
/// space, from left to right. A line of white space alone has none.
pub open spec fn tokens_of(text: Seq<char>) -> Seq<Seq<char>>
    decreases text.len(),
    via tokens_of_terminates
{
    if text.len() == 0 {
        Seq::empty()
    } else if white_space(text[0]) {
        tokens_of(text.drop_first())
    } else {
        let n = word_len(text) as int;
        seq![text.take(n)] + tokens_of(text.skip(n))
    }
}

#[via_fn]
proof fn tokens_of_terminates(text: Seq<char>) {
    lemma_word_len_bounds(text);
}

/// The word at the front of a text is no longer than the text, and not
/// empty where the text starts with a character that is no white space.
proof fn lemma_word_len_bounds(text: Seq<char>)
    ensures
        word_len(text) <= text.len(),
        text.len() > 0 && !white_space(text[0]) ==> word_len(text) >= 1,
    decreases text.len(),
{
    if text.len() > 0 && !white_space(text[0]) {
        lemma_word_len_bounds(text.drop_first());
    }
}

/// The word at the front of a text ends at the first white space, or at the
/// end of the text.
proof fn lemma_word_len_is(text: Seq<char>, n: int)
    requires
        0 <= n <= text.len(),
        forall|k: int| 0 <= k < n ==> !white_space(text[k]),
        n == text.len() || white_space(text[n]),
    ensures
        word_len(text) == n,
    decreases n,
{
    if n > 0 {
        lemma_word_len_is(text.drop_first(), n - 1);
    }
}

/// No token is empty and none holds white space.
pub proof fn lemma_tokens_are_words(text: Seq<char>, i: int)
    requires
        0 <= i < tokens_of(text).len(),
    ensures
        tokens_of(text)[i].len() > 0,
        forall|k: int| 0 <= k < tokens_of(text)[i].len() ==> !white_space(tokens_of(text)[i][k]),
    decreases text.len(),
{
    if text.len() == 0 {
    } else if white_space(text[0]) {
        lemma_tokens_are_words(text.drop_first(), i);
    } else {
        lemma_word_len_bounds(text);
        let n = word_len(text) as int;
        if i == 0 {
            lemma_word_has_no_space(text, n);
        } else {
            lemma_tokens_are_words(text.skip(n), i - 1);
        }
    }
}

/// No character of the word at the front of a text is white space.
proof fn lemma_word_has_no_space(text: Seq<char>, n: int)
    requires
        n == word_len(text),
    ensures
        n <= text.len(),
        forall|k: int| 0 <= k < n ==> !white_space(text[k]),
    decreases text.len(),
{
    lemma_word_len_bounds(text);
    if n > 0 {
        lemma_word_has_no_space(text.drop_first(), n - 1);
        assert forall|k: int| 0 <= k < n implies !white_space(text[k]) by {
            if k > 0 {
                assert(text[k] == text.drop_first()[k - 1]);
            }
        }
    }
}

/// A text in which every character is kept by the filter for characters
/// that are no white space is its own filtered form.
proof fn lemma_word_is_kept(text: Seq<char>)
    requires
        forall|k: int| 0 <= k < text.len() ==> !white_space(text[k]),
    ensures
        text.filter(|c: char| !white_space(c)) == text,
    decreases text.len(),
{
    if text.len() > 0 {
        let rest = text.drop_last();
        lemma_word_is_kept(rest);
        rest.lemma_filter_push(text.last(), |c: char| !white_space(c));
        assert(rest.push(text.last()) == text);
    }
}

/// The tokens of a line, one after the other, are the characters of the line
/// that are no white space, in the order of the line: splitting loses
/// nothing else and moves nothing.
pub proof fn lemma_tokens_keep_the_text(text: Seq<char>)
    ensures
        tokens_of(text).flatten() == text.filter(|c: char| !white_space(c)),
    decreases text.len(),
{
    let kept = |c: char| !white_space(c);
    if text.len() == 0 {
    } else if white_space(text[0]) {
        let rest = text.drop_first();
        lemma_tokens_keep_the_text(rest);
        Seq::filter_distributes_over_add(seq![text[0]], rest, kept);
        assert(seq![text[0]] + rest == text);
        assert(seq![text[0]].filter(kept) == Seq::<char>::empty()) by {
            Seq::<char>::empty().lemma_filter_push(text[0], kept);
            assert(Seq::<char>::empty().push(text[0]) == seq![text[0]]);
        }
    } else {
        lemma_word_len_bounds(text);
        let n = word_len(text) as int;
        let word = text.take(n);
        let rest = text.skip(n);
        lemma_tokens_keep_the_text(rest);
        lemma_word_has_no_space(text, n);
        lemma_word_is_kept(word);
        Seq::filter_distributes_over_add(word, rest, kept);
        assert(word + rest == text);
        let tokens = seq![word] + tokens_of(rest);
        assert(tokens.first() == word);
        assert(tokens.drop_first() == tokens_of(rest));
    }
}

/// A line of white space alone has no tokens.
pub proof fn lemma_blank_line_has_no_tokens(text: Seq<char>)
    requires
        forall|k: int| 0 <= k < text.len() ==> white_space(text[k]),
    ensures
        tokens_of(text).len() == 0,
    decreases text.len(),
{
    if text.len() > 0 {
        lemma_blank_line_has_no_tokens(text.drop_first());
    }
}

/// A word is not empty and holds no white space.
pub open spec fn is_word(text: Seq<char>) -> bool {
    text.len() > 0 && forall|k: int| 0 <= k < text.len() ==> !white_space(text[k])
}

/// A word in front of a text that does not go on with the word is the first
/// token, and the tokens of the rest follow.
proof fn lemma_leading_word(word: Seq<char>, rest: Seq<char>)
    requires
        is_word(word),
        rest.len() == 0 || white_space(rest[0]),
    ensures
        tokens_of(word + rest) == seq![word] + tokens_of(rest),
{
    let text = word + rest;
    assert forall|k: int| 0 <= k < word.len() implies !white_space(text[k]) by {
        assert(text[k] == word[k]);
    }
    if rest.len() > 0 {
        assert(text[word.len() as int] == rest[0]);
    }
    lemma_word_len_is(text, word.len() as int);
    assert(text.take(word.len() as int) == word);
    assert(text.skip(word.len() as int) == rest);
}

/// The words joined by single blanks are the first word, a blank, and the
/// other words joined by single blanks.
proof fn lemma_spaced_from_the_front(words: Seq<Seq<char>>)
    requires
        words.len() >= 2,
    ensures
        spaced(words) == words[0] + seq![' '] + spaced(words.drop_first()),
    decreases words.len(),
{
    let upper = words.drop_last();
    let lower = words.drop_first();
    if words.len() == 2 {
        assert(spaced(upper) == words[0]);
        assert(lower.len() == 1 && lower[0] == words.last());
    } else {
        lemma_spaced_from_the_front(upper);
        assert(upper.drop_first() == lower.drop_last());
        assert(lower.last() == words.last());
        assert(spaced(words) == words[0] + seq![' '] + spaced(lower));
    }
}

/// Joining and splitting undo each other: words joined by single blanks
/// split into the same words.
pub proof fn lemma_split_undoes_join(words: Seq<Seq<char>>)
    requires
        forall|i: int| 0 <= i < words.len() ==> is_word(#[trigger] words[i]),
    ensures
        tokens_of(spaced(words)) == words,
    decreases words.len(),
{
    if words.len() == 0 {
    } else if words.len() == 1 {
        lemma_leading_word(words[0], Seq::empty());
        assert(words[0] + Seq::<char>::empty() == words[0]);
        assert(seq![words[0]] + Seq::<Seq<char>>::empty() == words);
    } else {
        let lower = words.drop_first();
        let tail = seq![' '] + spaced(lower);
        lemma_spaced_from_the_front(words);
        lemma_split_undoes_join(lower);
        assert(white_space(' '));
        assert(tail[0] == ' ');
        assert(tail.drop_first() == spaced(lower));
        lemma_leading_word(words[0], tail);
        assert(words[0] + seq![' '] + spaced(lower) == words[0] + tail);
        assert(seq![words[0]] + lower == words);
    }
}

/// The tokens of any line, joined by single blanks, split into themselves.
pub proof fn lemma_tokens_survive_a_join(text: Seq<char>)
    ensures
        tokens_of(spaced(tokens_of(text))) == tokens_of(text),
{
    let words = tokens_of(text);
    assert forall|i: int| 0 <= i < words.len() implies is_word(#[trigger] words[i]) by {
        lemma_tokens_are_words(text, i);
    }
    lemma_split_undoes_join(words);
}

/// Splits a line on runs of white space into its tokens.
pub fn tokenize_line(line: &str) -> (tokens: Vec<String>)
    ensures
        tokens.deep_view() == tokens_of(line@),
{
    let chars = chars_of(line);
    let mut tokens: Vec<String> = Vec::new();
    let mut at: usize = 0;
    proof {
        assert(chars@.skip(0) == chars@);
        assert(tokens.deep_view() + tokens_of(chars@) == tokens_of(chars@));
    }
    while at < chars.len()
        invariant
            chars@ == line@,
            at <= chars.len(),
            tokens.deep_view() + tokens_of(chars@.skip(at as int)) == tokens_of(chars@),
        decreases chars.len() - at,
    {
        let ghost rest = chars@.skip(at as int);
        if is_whitespace(chars[at]) {
            proof {
                assert(rest.drop_first() == chars@.skip(at + 1));
            }
            at += 1;
        } else {
            let start: usize = at;
            while at < chars.len() && !is_whitespace(chars[at])
                invariant
                    start <= at <= chars.len(),
                    forall|k: int| start <= k < at ==> !white_space(chars@[k]),
                decreases chars.len() - at,
            {
                at += 1;
            }
            let word = text_between(&chars, start, at);
            let ghost before = tokens.deep_view();
            tokens.push(word);
            proof {
                lemma_word_len_is(rest, at - start);
                assert(rest.take(at - start) == chars@.subrange(start as int, at as int));
                assert(rest.skip(at - start) == chars@.skip(at as int));
                assert(tokens.deep_view() == before.push(word@));
                assert(before.push(word@) + tokens_of(chars@.skip(at as int)) == before
                    + tokens_of(rest));
            }
        }
    }
    proof {
        assert(tokens.deep_view() + Seq::<Seq<char>>::empty() == tokens.deep_view());
    }
    tokens
}

/// The tokens of each line, line by line.
pub open spec fn token_lists_of(lines: Seq<Seq<char>>) -> Seq<Seq<Seq<char>>> {
    lines.map_values(|line: Seq<char>| tokens_of(line))
}

/// Converts each line into its tokens.
pub fn tokenize_lines(lines: &Vec<String>) -> (token_lists: Vec<Vec<String>>)
    ensures
        token_lists.deep_view() == token_lists_of(lines.deep_view()),
{
    let mut token_lists: Vec<Vec<String>> = Vec::new();
    for i in 0..lines.len()
        invariant
            token_lists.len() == i,
            forall|k: int|
                0 <= k < i ==> (#[trigger] token_lists[k]).deep_view() == tokens_of(lines[k]@),
    {
        let tokens = tokenize_line(lines[i].as_str());
        token_lists.push(tokens);
    }
    proof {
        assert(token_lists.deep_view() =~= token_lists_of(lines.deep_view()));
    }
    token_lists
}

} // verus!
