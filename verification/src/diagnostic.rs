//! Non-fatal diagnostics: what a stage reports when it skips one input and
//! goes on with the next.

use vstd::prelude::*;
use vstd::string::StringExecFns;

verus! {

/// A recoverable failure, with the input that caused it.
#[derive(Debug, Clone, PartialEq, Eq)]
pub enum Diagnostic {
    /// A log line left no token at all.
    EmptyTokenList,
    /// The last token of these names no file.
    NoFileName { tokens: Vec<String> },
    /// The file that this path names has no extension.
    NoExtension { path: String },
    /// The file came without a directory and the index has not seen its name.
    PathNotFound { file: String },
    /// The file came without a directory and several files carry its name.
    DuplicateEntries { file: String },
    /// This directory of the source tree could not be listed.
    UnreadableDirectory { directory: String, reason: String },
    /// One entry of this directory could not be read.
    UnreadableEntry { directory: String, reason: String },
}

/// The mathematical value of a [`Diagnostic`].
pub enum DiagnosticView {
    EmptyTokenList,
    NoFileName { tokens: Seq<Seq<char>> },
    NoExtension { path: Seq<char> },
    PathNotFound { file: Seq<char> },
    DuplicateEntries { file: Seq<char> },
    UnreadableDirectory { directory: Seq<char>, reason: Seq<char> },
    UnreadableEntry { directory: Seq<char>, reason: Seq<char> },
}

impl View for Diagnostic {
    type V = DiagnosticView;

    open spec fn view(&self) -> DiagnosticView {
        match self {
            Diagnostic::EmptyTokenList => DiagnosticView::EmptyTokenList,
            Diagnostic::NoFileName { tokens } => DiagnosticView::NoFileName {
                tokens: tokens.deep_view(),
            },
            Diagnostic::NoExtension { path } => DiagnosticView::NoExtension { path: path@ },
            Diagnostic::PathNotFound { file } => DiagnosticView::PathNotFound { file: file@ },
            Diagnostic::DuplicateEntries { file } => DiagnosticView::DuplicateEntries {
                file: file@,
            },
            Diagnostic::UnreadableDirectory { directory, reason } => {
                DiagnosticView::UnreadableDirectory { directory: directory@, reason: reason@ }
            },
            Diagnostic::UnreadableEntry { directory, reason } => DiagnosticView::UnreadableEntry {
                directory: directory@,
                reason: reason@,
            },
        }
    }
}

impl DeepView for Diagnostic {
    type V = DiagnosticView;

    open spec fn deep_view(&self) -> DiagnosticView {
        self@
    }
}

/// The words of `words` in order, with one space between neighbours.
pub open spec fn spaced(words: Seq<Seq<char>>) -> Seq<char>
    decreases words.len(),
{
    if words.len() == 0 {
        Seq::empty()
    } else if words.len() == 1 {
        words[0]
    } else {
        spaced(words.drop_last()) + seq![' '] + words.last()
    }
}

/// The text that reports a diagnostic: what went wrong, then the input.
pub open spec fn message_of(diagnostic: DiagnosticView) -> Seq<char> {
    match diagnostic {
        DiagnosticView::EmptyTokenList => "empty token list"@,
        DiagnosticView::NoFileName { tokens } => "no file name in last token: "@ + spaced(tokens),
        DiagnosticView::NoExtension { path } => "no extension in path: "@ + path,
        DiagnosticView::PathNotFound { file } => "path not found: "@ + file,
        DiagnosticView::DuplicateEntries { file } => "duplicate entries found: "@ + file,
        DiagnosticView::UnreadableDirectory { directory, reason } => "cannot read directory "@
            + directory + ": "@ + reason,
        DiagnosticView::UnreadableEntry { directory, reason } => "cannot read an entry of "@
            + directory + ": "@ + reason,
    }
}

/// Joins `words` with single spaces.
pub fn join_spaced(words: &Vec<String>) -> (text: String)
    ensures
        text@ == spaced(words.deep_view()),
{
    let mut text = String::new();
    let ghost all = words.deep_view();
    for i in 0..words.len()
        invariant
            all == words.deep_view(),
            text@ == spaced(all.take(i as int)),
    {
        proof {
            let next = all.take(i + 1);
            assert(next.drop_last() == all.take(i as int));
            assert(next.last() == words[i as int]@);
        }
        if i > 0 {
            text.append(" ");
            proof {
                reveal_strlit(" ");
                assert(" "@ == seq![' ']);
            }
        }
        text.append(words[i].as_str());
    }
    proof {
        assert(all.take(words.len() as int) == all);
    }
    text
}

impl Diagnostic {
    /// The text to report for this diagnostic.
    pub fn message(&self) -> (text: String)
        ensures
            text@ == message_of(self@),
    {
        match self {
            Diagnostic::EmptyTokenList => String::from_str("empty token list"),
            Diagnostic::NoFileName { tokens } => {
                let list = join_spaced(tokens);
                String::from_str("no file name in last token: ").concat(list.as_str())
            },
            Diagnostic::NoExtension { path } => {
                String::from_str("no extension in path: ").concat(path.as_str())
            },
            Diagnostic::PathNotFound { file } => {
                String::from_str("path not found: ").concat(file.as_str())
            },
            Diagnostic::DuplicateEntries { file } => {
                String::from_str("duplicate entries found: ").concat(file.as_str())
            },
            Diagnostic::UnreadableDirectory { directory, reason } => {
                String::from_str("cannot read directory ").concat(directory.as_str()).concat(
                    ": ",
                ).concat(reason.as_str())
            },
            Diagnostic::UnreadableEntry { directory, reason } => {
                String::from_str("cannot read an entry of ").concat(directory.as_str()).concat(
                    ": ",
                ).concat(reason.as_str())
            },
        }
    }
}

} // verus!
