//! The sanitizer: strips the double quotes that would corrupt tokenization.

use vstd::prelude::*;
use crate::text::push_char;

verus! {

/// The quote character that the build log wraps, sometimes spuriously,
/// around commands and arguments.
pub open spec fn is_quote(c: char) -> bool {
    c == '"'
}

/// A line with every double quote taken out and all else left in place.
pub open spec fn without_quotes(line: Seq<char>) -> Seq<char> {
    line.filter(|c: char| !is_quote(c))
}

/// Removes all double-quote characters from a line.
pub fn cleanup_line(line: &str) -> (clean: String)
    ensures
        clean@ == without_quotes(line@),
{
    let mut clean = String::new();
    for c in it: line.chars()
        invariant
            it.seq() == line@,
            clean@ == without_quotes(line@.take(it.index())),
    {
        proof {
            let done = line@.take(it.index());
            assert(line@.take(it.index() + 1) == done.push(c));
            done.lemma_filter_push(c, |c: char| !is_quote(c));
        }
        if c != '"' {
            push_char(&mut clean, c);
        }
    }
    proof {
        assert(line@.take(line@.len() as int) == line@);
    }
    clean
}

/// No quote is left in a sanitized line, and sanitizing it again changes
/// nothing.
pub proof fn lemma_no_quote_remains(line: Seq<char>)
    ensures
        forall|k: int| 0 <= k < without_quotes(line).len() ==> !is_quote(without_quotes(line)[k]),
        without_quotes(without_quotes(line)) == without_quotes(line),
    decreases line.len(),
{
    let kept = |c: char| !is_quote(c);
    if line.len() > 0 {
        let rest = line.drop_last();
        lemma_no_quote_remains(rest);
        rest.lemma_filter_push(line.last(), kept);
        assert(rest.push(line.last()) == line);
        if kept(line.last()) {
            without_quotes(rest).lemma_filter_push(line.last(), kept);
        }
    }
}

/// Each line without its quotes, line by line.
pub open spec fn cleaned_lines(lines: Seq<Seq<char>>) -> Seq<Seq<char>> {
    lines.map_values(|line: Seq<char>| without_quotes(line))
}

/// Removes all double-quote characters from each line.
pub fn cleanup_lines(lines: &Vec<String>) -> (clean: Vec<String>)
    ensures
        clean.deep_view() == cleaned_lines(lines.deep_view()),
{
    let mut clean: Vec<String> = Vec::new();
    for i in 0..lines.len()
        invariant
            clean.len() == i,
            forall|k: int| 0 <= k < i ==> (#[trigger] clean[k])@ == without_quotes(lines[k]@),
    {
        let line = cleanup_line(lines[i].as_str());
        clean.push(line);
    }
    proof {
        assert(clean.deep_view() =~= cleaned_lines(lines.deep_view()));
    }
    clean
}

} // verus!
