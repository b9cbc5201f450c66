//! Text as sequences of characters: the few primitives of the standard
//! library that the stages build on, and searching in a line.

use vstd::prelude::*;

verus! {

/// The lower-case form of a text, as `str::to_lowercase` gives it.
pub uninterp spec fn lowercase_of(text: Seq<char>) -> Seq<char>;

/// Whether a character beyond ASCII is white space, as `char::is_whitespace`
/// tells it.
pub uninterp spec fn wide_white_space(c: char) -> bool;

/// The white space of ASCII: the blank, and the five controls from the
/// horizontal tab to the carriage return.
pub open spec fn ascii_white_space(c: char) -> bool {
    c == ' ' || 0x09 <= c as u32 <= 0x0d
}

/// Whether a character is white space: among ASCII the six characters
/// above and no other, beyond ASCII what the platform's tables say.
pub open spec fn white_space(c: char) -> bool {
    if (c as u32) < 0x80 {
        ascii_white_space(c)
    } else {
        wide_white_space(c)
    }
}

/// Trusted: stands for `String::push`, which adds the given character at the
/// end of the string and changes nothing before it.
#[verifier::external_body]
pub(crate) fn push_char(text: &mut String, c: char)
    ensures
        final(text)@ == old(text)@.push(c),
{
    text.push(c)
}

/// Trusted: stands for `str::to_lowercase`. The contract claims only that the
/// result is the text named [`lowercase_of`].
#[verifier::external_body]
pub(crate) fn to_lowercase(text: &str) -> (lowered: String)
    ensures
        lowered@ == lowercase_of(text@),
{
    text.to_lowercase()
}

/// Trusted: stands for `char::is_whitespace`, which tells whether a
/// character has the White_Space property of Unicode. The contract claims
/// that among ASCII these are the blank and U+0009 to U+000D and nothing
/// else, and that beyond ASCII the answer is the one named
/// [`wide_white_space`].
#[verifier::external_body]
pub(crate) fn is_whitespace(c: char) -> (space: bool)
    ensures
        space == if (c as u32) < 0x80 {
            ascii_white_space(c)
        } else {
            wide_white_space(c)
        },
{
    c.is_whitespace()
}

/// The characters of a text, one by one.
pub fn chars_of(text: &str) -> (chars: Vec<char>)
    ensures
        chars@ == text@,
{
    let mut chars: Vec<char> = Vec::new();
    for c in it: text.chars()
        invariant
            it.seq() == text@,
            chars@ == text@.take(it.index()),
    {
        chars.push(c);
    }
    chars
}

/// The text made of the characters of `chars` from `from` up to `to`.
pub(crate) fn text_between(chars: &Vec<char>, from: usize, to: usize) -> (text: String)
    requires
        from <= to <= chars.len(),
    ensures
        text@ == chars@.subrange(from as int, to as int),
{
    let mut text = String::new();
    for at in from..to
        invariant
            from <= to <= chars.len(),
            text@ == chars@.subrange(from as int, at as int),
    {
        push_char(&mut text, chars[at]);
    }
    text
}

/// `needle` stands in `text` at position `at`.
pub open spec fn occurs_at(needle: Seq<char>, text: Seq<char>, at: int) -> bool {
    &&& 0 <= at
    &&& at + needle.len() <= text.len()
    &&& text.subrange(at, at + needle.len()) == needle
}

/// `needle` stands somewhere in `text`. The empty text stands everywhere.
pub open spec fn occurs_in(needle: Seq<char>, text: Seq<char>) -> bool {
    exists|at: int| occurs_at(needle, text, at)
}

/// Tells whether `needle` stands in `text` at position `at`.
fn found_at(needle: &Vec<char>, text: &Vec<char>, at: usize) -> (found: bool)
    requires
        at + needle.len() <= text.len(),
    ensures
        found == occurs_at(needle@, text@, at as int),
{
    let ghost window = text@.subrange(at as int, at + needle.len());
    for i in 0..needle.len()
        invariant
            at + needle.len() <= text.len(),
            window == text@.subrange(at as int, at + needle.len()),
            forall|k: int| 0 <= k < i ==> window[k] == needle[k],
    {
        if text[at + i] != needle[i] {
            assert(window[i as int] != needle@[i as int]);
            return false;
        }
    }
    assert(window =~= needle@);
    true
}

/// Tells whether `needle` stands somewhere in `text`.
pub fn contains(text: &Vec<char>, needle: &Vec<char>) -> (found: bool)
    ensures
        found == occurs_in(needle@, text@),
{
    if needle.len() > text.len() {
        return false;
    }
    let last: usize = text.len() - needle.len();
    let mut at: usize = 0;
    while at < last
        invariant
            last == text.len() - needle.len(),
            at <= last,
            forall|k: int| 0 <= k < at ==> !occurs_at(needle@, text@, k),
        decreases last - at,
    {
        if found_at(needle, text, at) {
            return true;
        }
        at += 1;
    }
    found_at(needle, text, last)
}

} // verus!
