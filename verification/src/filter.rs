//! The line filter: keeps the lines of the log that name the compiler.

use vstd::prelude::*;
use crate::text::{chars_of, contains, lowercase_of, occurs_in, to_lowercase};

verus! {

/// A line mentions the compiler where the name of its executable stands
/// somewhere in the line, whatever the case of either. The name need not be
/// a word of its own: it counts inside a path or a flag as well.
pub open spec fn mentions(line: Seq<char>, executable: Seq<char>) -> bool {
    occurs_in(lowercase_of(executable), lowercase_of(line))
}

/// The lines that mention the compiler, in the order in which they were read.
pub open spec fn matching_lines(lines: Seq<Seq<char>>, executable: Seq<char>) -> Seq<Seq<char>> {
    lines.filter(|line: Seq<char>| mentions(line, executable))
}

/// Case does not matter to the filter: a line and a name are judged by their
/// lower-case forms alone.
pub proof fn lemma_case_does_not_matter(
    line: Seq<char>,
    other_line: Seq<char>,
    executable: Seq<char>,
    other_executable: Seq<char>,
)
    requires
        lowercase_of(line) == lowercase_of(other_line),
        lowercase_of(executable) == lowercase_of(other_executable),
    ensures
        mentions(line, executable) == mentions(other_line, other_executable),
{
}

/// Tells whether the lower-case form of `line` holds `needle`.
fn holds_lowered(line: &str, needle: &Vec<char>) -> (held: bool)
    ensures
        held == occurs_in(needle@, lowercase_of(line@)),
{
    let lowered = to_lowercase(line);
    let text = chars_of(lowered.as_str());
    contains(&text, needle)
}

/// Tells whether `line` mentions the compiler executable `executable`.
pub fn line_matches(line: &str, executable: &str) -> (matched: bool)
    ensures
        matched == mentions(line@, executable@),
{
    let lowered = to_lowercase(executable);
    let needle = chars_of(lowered.as_str());
    holds_lowered(line, &needle)
}

/// Finds all the lines that mention the compiler executable `executable`.
pub fn find_all_lines(lines: &Vec<String>, executable: &str) -> (matched: Vec<String>)
    ensures
        matched.deep_view() == matching_lines(lines.deep_view(), executable@),
{
    let lowered = to_lowercase(executable);
    let needle = chars_of(lowered.as_str());
    let mut matched: Vec<String> = Vec::new();
    let ghost all = lines.deep_view();
    let ghost wanted = |line: Seq<char>| mentions(line, executable@);
    for i in 0..lines.len()
        invariant
            all == lines.deep_view(),
            needle@ == lowercase_of(executable@),
            wanted == |line: Seq<char>| mentions(line, executable@),
            matched.deep_view() == all.take(i as int).filter(wanted),
    {
        proof {
            assert(all.take(i + 1) == all.take(i as int).push(all[i as int]));
            all.take(i as int).lemma_filter_push(all[i as int], wanted);
            assert(all[i as int] == lines[i as int]@);
        }
        if holds_lowered(lines[i].as_str(), &needle) {
            let ghost before = matched.deep_view();
            let line = lines[i].clone();
            matched.push(line);
            proof {
                assert(matched.deep_view() == before.push(line@));
            }
        }
    }
    proof {
        assert(all.take(lines.len() as int) == all);
    }
    matched
}

} // verus!
