//! How a piece of text reads as a file-system path: its final component, the
//! directory in front of it, and the extension of the final component.
//!
//! Where a path is cut into components is the platform's business, through
//! `std::path::Path`; this module gives its two answers a name and carries
//! them as plain text. The extension is read off the file name here.

use std::path::Path;
use vstd::prelude::*;
use crate::text::chars_of;

verus! {

/// The final component of `path`, as `Path::file_name` reads it; `None` where
/// the path names no file (it is empty, a root, or ends in `..`).
pub uninterp spec fn path_file_name(path: Seq<char>) -> Option<Seq<char>>;

/// The path without its final component, as `Path::parent` reads it. A bare
/// file name has the empty parent.
pub uninterp spec fn path_parent(path: Seq<char>) -> Option<Seq<char>>;

/// The position of the last dot in `name`, if it has one.
pub open spec fn last_dot(name: Seq<char>) -> Option<int>
    decreases name.len(),
{
    if name.len() == 0 {
        None
    } else if name.last() == '.' {
        Some(name.len() - 1)
    } else {
        last_dot(name.drop_last())
    }
}

/// The extension of a file name: what follows its last dot. A name without a
/// dot has none, and neither has a name whose only dot is its first
/// character. A name that ends in a dot has the empty extension.
pub open spec fn extension_of(name: Seq<char>) -> Option<Seq<char>> {
    match last_dot(name) {
        Some(dot) => if dot > 0 {
            Some(name.skip(dot + 1))
        } else {
            None
        },
        None => None,
    }
}

/// The file name has an extension and that extension is not empty.
pub open spec fn extended(name: Seq<char>) -> bool {
    extension_of(name) matches Some(extension) && extension.len() > 0
}

/// The two parts into which a path falls, as text.
#[derive(Debug, Clone, PartialEq, Eq)]
pub struct PathParts {
    /// The final component, if the path names a file.
    pub file_name: Option<String>,
    /// What stands in front of the final component, if there is one.
    pub parent: Option<String>,
}

/// The mathematical value of a [`PathParts`].
pub struct PathPartsView {
    pub file_name: Option<Seq<char>>,
    pub parent: Option<Seq<char>>,
}

impl View for PathParts {
    type V = PathPartsView;

    open spec fn view(&self) -> PathPartsView {
        PathPartsView { file_name: self.file_name.deep_view(), parent: self.parent.deep_view() }
    }
}

/// The parts of `path` under the platform's reading.
pub open spec fn parts_of(path: Seq<char>) -> PathPartsView {
    PathPartsView { file_name: path_file_name(path), parent: path_parent(path) }
}

impl PathPartsView {
    /// There is a file name and it is not empty.
    pub open spec fn named(self) -> bool {
        self.file_name matches Some(name) && name.len() > 0
    }

    /// There is a file name and it has an extension that is not empty.
    pub open spec fn has_extension(self) -> bool {
        self.file_name matches Some(name) && extended(name)
    }

    /// The path itself carries a directory in front of the file name.
    pub open spec fn has_directory(self) -> bool {
        self.parent matches Some(directory) && directory.len() > 0
    }

    /// What stands in front of the file name; empty where nothing does.
    pub open spec fn directory(self) -> Seq<char> {
        match self.parent {
            Some(directory) => directory,
            None => Seq::empty(),
        }
    }
}

/// Trusted: calls `Path::file_name` on `path` and hands its answer back as
/// text. The contract claims only that the answer is the one named
/// [`path_file_name`].
#[verifier::external_body]
fn file_name(path: &str) -> (name: Option<String>)
    ensures
        name.deep_view() == path_file_name(path@),
{
    match Path::new(path).file_name() {
        Some(name) => Some(name.to_string_lossy().into_owned()),
        None => None,
    }
}

/// Trusted: calls `Path::parent` on `path` and hands its answer back as text.
/// The contract claims only that the answer is the one named [`path_parent`].
#[verifier::external_body]
fn parent(path: &str) -> (directory: Option<String>)
    ensures
        directory.deep_view() == path_parent(path@),
{
    match Path::new(path).parent() {
        Some(directory) => Some(directory.to_string_lossy().into_owned()),
        None => None,
    }
}

/// Reads `path` as a file-system path and returns its parts.
pub fn split_path(path: &str) -> (parts: PathParts)
    ensures
        parts@ == parts_of(path@),
{
    PathParts { file_name: file_name(path), parent: parent(path) }
}

/// Tells whether a file name has an extension that is not empty.
pub fn has_extension(name: &str) -> (answer: bool)
    ensures
        answer == extended(name@),
{
    let chars = chars_of(name);
    let mut dot: Option<usize> = None;
    for at in 0..chars.len()
        invariant
            chars@ == name@,
            match dot {
                Some(position) => last_dot(chars@.take(at as int)) == Some(position as int),
                None => last_dot(chars@.take(at as int)) is None,
            },
    {
        proof {
            assert(chars@.take(at + 1).drop_last() == chars@.take(at as int));
        }
        if chars[at] == '.' {
            dot = Some(at);
        }
    }
    proof {
        assert(chars@.take(chars.len() as int) == chars@);
        lemma_last_dot_in_range(chars@);
    }
    match dot {
        Some(position) => position > 0 && position + 1 < chars.len(),
        None => false,
    }
}

/// The last dot of a name, if there is one, is a position of the name.
proof fn lemma_last_dot_in_range(name: Seq<char>)
    ensures
        last_dot(name) matches Some(dot) ==> 0 <= dot < name.len() && name[dot] == '.',
    decreases name.len(),
{
    if name.len() > 0 && name.last() != '.' {
        lemma_last_dot_in_range(name.drop_last());
    }
}

} // verus!
