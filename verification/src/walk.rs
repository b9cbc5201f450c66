//! The directory walk: which directory to list next, and what to make of a
//! listing once the file system has answered.
//!
//! The walk itself touches no file system. Its caller lists the directory it
//! is handed and reports back what was found; the walk keeps the stack of
//! directories still to visit, so that a tree of any depth is traversed
//! depth-first without recursion.

use vstd::prelude::*;
use crate::diagnostic::{Diagnostic, DiagnosticView};

verus! {

/// One entry of a directory, as the file system reported it.
#[derive(Debug, Clone, PartialEq, Eq)]
pub enum Entry {
    /// A subdirectory, by its path.
    Directory { path: String },
    /// A regular file, by its path.
    File { path: String },
    /// Anything else, by its path.
    Other { path: String },
    /// An entry that could not be read, with the reason.
    Unreadable { reason: String },
}

/// The mathematical value of an [`Entry`].
pub enum EntryView {
    Directory { path: Seq<char> },
    File { path: Seq<char> },
    Other { path: Seq<char> },
    Unreadable { reason: Seq<char> },
}

impl View for Entry {
    type V = EntryView;

    open spec fn view(&self) -> EntryView {
        match self {
            Entry::Directory { path } => EntryView::Directory { path: path@ },
            Entry::File { path } => EntryView::File { path: path@ },
            Entry::Other { path } => EntryView::Other { path: path@ },
            Entry::Unreadable { reason } => EntryView::Unreadable { reason: reason@ },
        }
    }
}

impl DeepView for Entry {
    type V = EntryView;

    open spec fn deep_view(&self) -> EntryView {
        self@
    }
}

/// What listing one directory gave.
#[derive(Debug, Clone, PartialEq, Eq)]
pub enum Listing {
    /// The entries of the directory, in the order in which they were read.
    Entries(Vec<Entry>),
    /// The directory could not be listed, with the reason.
    Unreadable { reason: String },
}

/// The mathematical value of a [`Listing`].
pub enum ListingView {
    Entries(Seq<EntryView>),
    Unreadable { reason: Seq<char> },
}

impl View for Listing {
    type V = ListingView;

    open spec fn view(&self) -> ListingView {
        match self {
            Listing::Entries(entries) => ListingView::Entries(entries.deep_view()),
            Listing::Unreadable { reason } => ListingView::Unreadable { reason: reason@ },
        }
    }
}

/// What one listing contributes: the files to hand on, and the diagnostics.
#[derive(Debug, Clone, PartialEq, Eq)]
pub struct Findings {
    pub files: Vec<String>,
    pub diagnostics: Vec<Diagnostic>,
}

/// The mathematical value of a [`Findings`].
pub struct FindingsView {
    pub files: Seq<Seq<char>>,
    pub diagnostics: Seq<DiagnosticView>,
}

impl View for Findings {
    type V = FindingsView;

    open spec fn view(&self) -> FindingsView {
        FindingsView {
            files: self.files.deep_view(),
            diagnostics: self.diagnostics.deep_view(),
        }
    }
}

/// The path of an entry that is a subdirectory.
pub open spec fn as_directory(entry: EntryView) -> Option<Seq<char>> {
    match entry {
        EntryView::Directory { path } => Some(path),
        _ => None,
    }
}

/// The path of an entry that is a regular file.
pub open spec fn as_file(entry: EntryView) -> Option<Seq<char>> {
    match entry {
        EntryView::File { path } => Some(path),
        _ => None,
    }
}

/// The diagnostic for an entry of `directory` that could not be read.
pub open spec fn as_failure(directory: Seq<char>, entry: EntryView) -> Option<DiagnosticView> {
    match entry {
        EntryView::Unreadable { reason } => Some(
            DiagnosticView::UnreadableEntry { directory, reason },
        ),
        _ => None,
    }
}

/// The subdirectories among `entries`, in order.
pub open spec fn directories_among(entries: Seq<EntryView>) -> Seq<Seq<char>> {
    entries.filter_map(|entry: EntryView| as_directory(entry))
}

/// The regular files among `entries`, in order.
pub open spec fn files_among(entries: Seq<EntryView>) -> Seq<Seq<char>> {
    entries.filter_map(|entry: EntryView| as_file(entry))
}

/// The diagnostics for the unreadable ones among the `entries` of `directory`.
pub open spec fn failures_among(directory: Seq<char>, entries: Seq<EntryView>) -> Seq<
    DiagnosticView,
> {
    entries.filter_map(|entry: EntryView| as_failure(directory, entry))
}

/// The directories that a listing adds to those still to visit: its
/// subdirectories, or none where the directory could not be listed.
pub open spec fn queued_by(listing: ListingView) -> Seq<Seq<char>> {
    match listing {
        ListingView::Entries(entries) => directories_among(entries),
        ListingView::Unreadable { .. } => Seq::empty(),
    }
}

/// What the listing of `directory` contributes: its regular files and a
/// diagnostic for each entry that could not be read, or, where the directory
/// could not be listed, no file and the one diagnostic that says so.
pub open spec fn found_in(directory: Seq<char>, listing: ListingView) -> FindingsView {
    match listing {
        ListingView::Entries(entries) => FindingsView {
            files: files_among(entries),
            diagnostics: failures_among(directory, entries),
        },
        ListingView::Unreadable { reason } => FindingsView {
            files: Seq::empty(),
            diagnostics: seq![DiagnosticView::UnreadableDirectory { directory, reason }],
        },
    }
}

/// A depth-first walk over a directory tree, between two listings.
pub struct TreeWalk {
    pending: Vec<String>,
}

impl View for TreeWalk {
    type V = Seq<Seq<char>>;

    /// The directories still to visit; the next one is the last.
    closed spec fn view(&self) -> Seq<Seq<char>> {
        self.pending.deep_view()
    }
}

impl TreeWalk {
    /// A walk that has the root of the tree still to visit, and nothing else.
    pub fn new(root: String) -> (walk: Self)
        ensures
            walk@ == seq![root@],
    {
        let mut pending: Vec<String> = Vec::new();
        pending.push(root);
        let walk = TreeWalk { pending };
        proof {
            assert(walk@ =~= seq![root@]);
        }
        walk
    }

    /// Tells whether every directory has been visited.
    pub fn is_finished(&self) -> (finished: bool)
        ensures
            finished == (self@.len() == 0),
    {
        self.pending.len() == 0
    }

    /// Takes the directory to list next: the one that was found last. `None`
    /// once the walk is finished.
    pub fn next_directory(&mut self) -> (next: Option<String>)
        ensures
            match next {
                Some(directory) => old(self)@.len() > 0 && directory@ == old(self)@.last()
                    && final(self)@ == old(self)@.drop_last(),
                None => old(self)@.len() == 0 && final(self)@ == old(self)@,
            },
    {
        let ghost before = self.pending.deep_view();
        let next = self.pending.pop();
        proof {
            if next.is_some() {
                assert(self.pending.deep_view() =~= before.drop_last());
            }
        }
        next
    }

    /// Takes in what listing `directory` gave. Its subdirectories are added to
    /// those still to visit, its regular files are handed on, and each entry
    /// that could not be read is reported. A directory that could not be
    /// listed at all is reported and adds nothing: the walk goes on with the
    /// directories it already knows of.
    pub fn visit(&mut self, directory: &str, listing: Listing) -> (found: Findings)
        ensures
            final(self)@ == old(self)@ + queued_by(listing@),
            found@ == found_in(directory@, listing@),
    {
        let ghost queue = self.pending.deep_view();
        let mut files: Vec<String> = Vec::new();
        let mut diagnostics: Vec<Diagnostic> = Vec::new();
        match listing {
            Listing::Unreadable { reason } => {
                diagnostics.push(
                    Diagnostic::UnreadableDirectory {
                        directory: directory.to_owned(),
                        reason,
                    },
                );
                proof {
                    assert(files.deep_view() =~= Seq::<Seq<char>>::empty());
                    assert(diagnostics.deep_view() =~= seq![diagnostics[0]@]);
                    assert(queue + Seq::<Seq<char>>::empty() =~= queue);
                }
            },
            Listing::Entries(entries) => {
                let ghost all = entries.deep_view();
                let ghost before = self.pending.deep_view();
                let ghost dirs = |entry: EntryView| as_directory(entry);
                let ghost regular = |entry: EntryView| as_file(entry);
                let ghost failed = |entry: EntryView| as_failure(directory@, entry);
                proof {
                    assert(self.pending.deep_view() =~= before + all.take(0).filter_map(dirs));
                    assert(files.deep_view() =~= all.take(0).filter_map(regular));
                    assert(diagnostics.deep_view() =~= all.take(0).filter_map(failed));
                }
                for entry in it: entries
                    invariant
                        dirs == |entry: EntryView| as_directory(entry),
                        regular == |entry: EntryView| as_file(entry),
                        failed == |entry: EntryView| as_failure(directory@, entry),
                        it.seq().len() == all.len(),
                        forall|i: int| 0 <= i < all.len() ==> all[i] == (#[trigger] it.seq()[i])@,
                        self.pending.deep_view() == before + all.take(it.index()).filter_map(dirs),
                        files.deep_view() == all.take(it.index()).filter_map(regular),
                        diagnostics.deep_view() == all.take(it.index()).filter_map(failed),
                {
                    proof {
                        all.lemma_filter_map_take_succ(dirs, it.index());
                        all.lemma_filter_map_take_succ(regular, it.index());
                        all.lemma_filter_map_take_succ(failed, it.index());
                        assert(all[it.index()] == entry@);
                    }
                    let ghost pending_before = self.pending.deep_view();
                    let ghost files_before = files.deep_view();
                    let ghost diagnostics_before = diagnostics.deep_view();
                    match entry {
                        Entry::Directory { path } => {
                            self.pending.push(path);
                            proof {
                                assert(self.pending.deep_view() =~= pending_before.push(path@));
                            }
                        },
                        Entry::File { path } => {
                            files.push(path);
                            proof {
                                assert(files.deep_view() =~= files_before.push(path@));
                            }
                        },
                        Entry::Other { path } => {},
                        Entry::Unreadable { reason } => {
                            let diagnostic = Diagnostic::UnreadableEntry {
                                directory: directory.to_owned(),
                                reason,
                            };
                            diagnostics.push(diagnostic);
                            proof {
                                assert(diagnostics.deep_view() =~= diagnostics_before.push(
                                    diagnostic@,
                                ));
                            }
                        },
                    }
                }
                proof {
                    assert(all.take(all.len() as int) == all);
                }
            },
        }
        Findings { files, diagnostics }
    }
}

/// A traversal between two rounds: the directories still to visit, those
/// already listed, and what the listings have contributed so far.
pub struct Traversal {
    pub pending: Seq<Seq<char>>,
    pub visited: Seq<Seq<char>>,
    pub files: Seq<Seq<char>>,
    pub diagnostics: Seq<DiagnosticView>,
}

/// A traversal that has nothing but its root still to visit.
pub open spec fn started(root: Seq<char>) -> Traversal {
    Traversal {
        pending: seq![root],
        visited: Seq::empty(),
        files: Seq::empty(),
        diagnostics: Seq::empty(),
    }
}

/// One round of a traversal over a file system that answers each directory
/// with `answers`: the next directory is taken, listed, and visited. A
/// finished traversal stays as it is.
pub open spec fn round(before: Traversal, answers: spec_fn(Seq<char>) -> ListingView) -> Traversal {
    if before.pending.len() == 0 {
        before
    } else {
        let directory = before.pending.last();
        let found = found_in(directory, answers(directory));
        Traversal {
            pending: before.pending.drop_last() + queued_by(answers(directory)),
            visited: before.visited.push(directory),
            files: before.files + found.files,
            diagnostics: before.diagnostics + found.diagnostics,
        }
    }
}

/// The traversal from `root` after `rounds` rounds.
pub open spec fn traversal_after(
    root: Seq<char>,
    answers: spec_fn(Seq<char>) -> ListingView,
    rounds: nat,
) -> Traversal
    decreases rounds,
{
    if rounds == 0 {
        started(root)
    } else {
        round(traversal_after(root, answers, (rounds - 1) as nat), answers)
    }
}

/// The file system lists `child` as a subdirectory of `directory`.
pub open spec fn lists_directory(
    answers: spec_fn(Seq<char>) -> ListingView,
    directory: Seq<char>,
    child: Seq<char>,
) -> bool {
    queued_by(answers(directory)).contains(child)
}

/// The file system lists `file` as a regular file of `directory`.
pub open spec fn lists_file(
    answers: spec_fn(Seq<char>) -> ListingView,
    directory: Seq<char>,
    file: Seq<char>,
) -> bool {
    answers(directory) matches ListingView::Entries(entries) && files_among(entries).contains(
        file,
    )
}

/// `chain` leads from `root` down the tree: it starts at the root, and the
/// file system lists each of its directories in the one before.
pub open spec fn leads_from(
    answers: spec_fn(Seq<char>) -> ListingView,
    root: Seq<char>,
    chain: Seq<Seq<char>>,
) -> bool {
    &&& chain.len() > 0
    &&& chain[0] == root
    &&& forall|k: int|
        0 <= k < chain.len() - 1 ==> lists_directory(answers, #[trigger] chain[k], chain[k + 1])
}

/// What holds of a traversal after any number of rounds: the root is known;
/// every subdirectory of a visited directory is known; every file of a
/// visited directory has been handed on.
spec fn closed(
    root: Seq<char>,
    answers: spec_fn(Seq<char>) -> ListingView,
    state: Traversal,
) -> bool {
    &&& state.visited.contains(root) || state.pending.contains(root)
    &&& forall|directory: Seq<char>, child: Seq<char>|
        state.visited.contains(directory) && #[trigger] lists_directory(answers, directory, child)
            ==> state.visited.contains(child) || state.pending.contains(child)
    &&& forall|directory: Seq<char>, file: Seq<char>|
        state.visited.contains(directory) && #[trigger] lists_file(answers, directory, file)
            ==> state.files.contains(file)
}

/// What stands in one of two sequences stands in the two put together, and
/// the other way round.
proof fn lemma_contains_add(front: Seq<Seq<char>>, back: Seq<Seq<char>>, item: Seq<char>)
    ensures
        (front + back).contains(item) <==> front.contains(item) || back.contains(item),
{
    let both = front + back;
    if front.contains(item) {
        let i = choose|i: int| 0 <= i < front.len() && front[i] == item;
        assert(both[i] == item);
    }
    if back.contains(item) {
        let i = choose|i: int| 0 <= i < back.len() && back[i] == item;
        assert(both[front.len() + i] == item);
    }
    if both.contains(item) {
        let i = choose|i: int| 0 <= i < both.len() && both[i] == item;
        if i < front.len() {
            assert(front[i] == item);
        } else {
            assert(back[i - front.len()] == item);
        }
    }
}

/// One round keeps a traversal closed.
proof fn lemma_round_keeps_closed(
    root: Seq<char>,
    answers: spec_fn(Seq<char>) -> ListingView,
    before: Traversal,
)
    requires
        closed(root, answers, before),
    ensures
        closed(root, answers, round(before, answers)),
{
    let after = round(before, answers);
    if before.pending.len() > 0 {
        let current = before.pending.last();
        let rest = before.pending.drop_last();
        let queued = queued_by(answers(current));
        let found = found_in(current, answers(current));
        assert(after.visited.last() == current);
        assert forall|item: Seq<char>|
            before.visited.contains(item) || before.pending.contains(item) implies (
        after.visited.contains(item) || after.pending.contains(item)) by {
            if before.visited.contains(item) {
                let i = choose|i: int| 0 <= i < before.visited.len() && before.visited[i] == item;
                assert(after.visited[i] == item);
            } else {
                let i = choose|i: int| 0 <= i < before.pending.len() && before.pending[i] == item;
                if i == before.pending.len() - 1 {
                    assert(after.visited.contains(item));
                } else {
                    assert(rest[i] == item);
                    lemma_contains_add(rest, queued, item);
                }
            }
        }
        assert forall|directory: Seq<char>, child: Seq<char>|
            after.visited.contains(directory) && #[trigger] lists_directory(
                answers,
                directory,
                child,
            ) implies (after.visited.contains(child) || after.pending.contains(child)) by {
            let i = choose|i: int| 0 <= i < after.visited.len() && after.visited[i] == directory;
            if i < before.visited.len() {
                assert(before.visited[i] == directory);
            } else {
                lemma_contains_add(rest, queued, child);
            }
        }
        assert forall|directory: Seq<char>, file: Seq<char>|
            after.visited.contains(directory) && #[trigger] lists_file(
                answers,
                directory,
                file,
            ) implies after.files.contains(file) by {
            let i = choose|i: int| 0 <= i < after.visited.len() && after.visited[i] == directory;
            lemma_contains_add(before.files, found.files, file);
            if i < before.visited.len() {
                assert(before.visited[i] == directory);
            }
        }
    }
}

/// A traversal is closed after any number of rounds.
proof fn lemma_traversal_is_closed(
    root: Seq<char>,
    answers: spec_fn(Seq<char>) -> ListingView,
    rounds: nat,
)
    ensures
        closed(root, answers, traversal_after(root, answers, rounds)),
    decreases rounds,
{
    if rounds == 0 {
        assert(started(root).pending[0] == root);
    } else {
        lemma_traversal_is_closed(root, answers, (rounds - 1) as nat);
        lemma_round_keeps_closed(
            root,
            answers,
            traversal_after(root, answers, (rounds - 1) as nat),
        );
    }
}

/// A finished traversal has visited every directory beneath its root that
/// can be reached through directories that could be listed, and has handed on
/// every regular file of each of them. A directory that could not be listed
/// hides what lies beneath it and nothing else.
pub proof fn lemma_finished_walk_is_complete(
    root: Seq<char>,
    answers: spec_fn(Seq<char>) -> ListingView,
    rounds: nat,
    chain: Seq<Seq<char>>,
)
    requires
        traversal_after(root, answers, rounds).pending.len() == 0,
        leads_from(answers, root, chain),
    ensures
        traversal_after(root, answers, rounds).visited.contains(chain.last()),
        forall|file: Seq<char>| #[trigger]
            lists_file(answers, chain.last(), file) ==> traversal_after(
                root,
                answers,
                rounds,
            ).files.contains(file),
    decreases chain.len(),
{
    let end = traversal_after(root, answers, rounds);
    lemma_traversal_is_closed(root, answers, rounds);
    if chain.len() > 1 {
        let upper = chain.drop_last();
        assert forall|k: int| 0 <= k < upper.len() - 1 implies lists_directory(
            answers,
            #[trigger] upper[k],
            upper[k + 1],
        ) by {
            assert(upper[k] == chain[k]);
            assert(upper[k + 1] == chain[k + 1]);
        }
        lemma_finished_walk_is_complete(root, answers, rounds, upper);
        assert(upper.last() == chain[chain.len() - 2]);
        assert(lists_directory(answers, chain[chain.len() - 2], chain[chain.len() - 2 + 1]));
    }
}

/// Some directory among `visited` lists `child` as a subdirectory.
pub open spec fn directory_listed(
    answers: spec_fn(Seq<char>) -> ListingView,
    visited: Seq<Seq<char>>,
    child: Seq<char>,
) -> bool {
    exists|directory: Seq<char>|
        visited.contains(directory) && #[trigger] lists_directory(answers, directory, child)
}

/// Some directory among `visited` lists `file` as a regular file.
pub open spec fn file_listed(
    answers: spec_fn(Seq<char>) -> ListingView,
    visited: Seq<Seq<char>>,
    file: Seq<char>,
) -> bool {
    exists|directory: Seq<char>|
        visited.contains(directory) && #[trigger] lists_file(answers, directory, file)
}

/// Nothing comes from nowhere: every directory that a traversal knows of is
/// the root or was listed in a visited directory, and every file handed on
/// was listed in a visited directory.
pub open spec fn grounded(
    root: Seq<char>,
    answers: spec_fn(Seq<char>) -> ListingView,
    state: Traversal,
) -> bool {
    &&& forall|directory: Seq<char>| #[trigger]
        state.visited.contains(directory) ==> directory == root || directory_listed(
            answers,
            state.visited,
            directory,
        )
    &&& forall|directory: Seq<char>| #[trigger]
        state.pending.contains(directory) ==> directory == root || directory_listed(
            answers,
            state.visited,
            directory,
        )
    &&& forall|file: Seq<char>| #[trigger]
        state.files.contains(file) ==> file_listed(answers, state.visited, file)
}

/// One round keeps a traversal grounded.
proof fn lemma_round_keeps_grounded(
    root: Seq<char>,
    answers: spec_fn(Seq<char>) -> ListingView,
    before: Traversal,
)
    requires
        grounded(root, answers, before),
    ensures
        grounded(root, answers, round(before, answers)),
{
    let after = round(before, answers);
    if before.pending.len() > 0 {
        let current = before.pending.last();
        let rest = before.pending.drop_last();
        let queued = queued_by(answers(current));
        let found = found_in(current, answers(current));
        assert(after.visited.last() == current);
        assert(before.pending.contains(current));
        assert forall|directory: Seq<char>|
            before.visited.contains(directory) implies after.visited.contains(directory) by {
            let i = choose|i: int|
                0 <= i < before.visited.len() && before.visited[i] == directory;
            assert(after.visited[i] == directory);
        }
        assert forall|child: Seq<char>|
            directory_listed(answers, before.visited, child) implies directory_listed(
            answers,
            after.visited,
            child,
        ) by {
            let directory = choose|directory: Seq<char>|
                before.visited.contains(directory) && lists_directory(answers, directory, child);
            assert(after.visited.contains(directory) && lists_directory(
                answers,
                directory,
                child,
            ));
        }
        assert forall|directory: Seq<char>| #[trigger]
            after.pending.contains(directory) implies directory == root || directory_listed(
            answers,
            after.visited,
            directory,
        ) by {
            lemma_contains_add(rest, queued, directory);
            if rest.contains(directory) {
                let i = choose|i: int| 0 <= i < rest.len() && rest[i] == directory;
                assert(before.pending[i] == directory);
                assert(before.pending.contains(directory));
                if directory != root {
                    assert(directory_listed(answers, before.visited, directory));
                }
            } else {
                assert(after.visited.contains(current) && lists_directory(
                    answers,
                    current,
                    directory,
                ));
            }
        }
        assert forall|directory: Seq<char>| #[trigger]
            after.visited.contains(directory) implies directory == root || directory_listed(
            answers,
            after.visited,
            directory,
        ) by {
            let i = choose|i: int| 0 <= i < after.visited.len() && after.visited[i] == directory;
            if i < before.visited.len() {
                assert(before.visited[i] == directory);
                assert(before.visited.contains(directory));
            }
            if directory != root {
                assert(directory_listed(answers, before.visited, directory));
            }
        }
        assert forall|file: Seq<char>| #[trigger] after.files.contains(file) implies file_listed(
            answers,
            after.visited,
            file,
        ) by {
            lemma_contains_add(before.files, found.files, file);
            if before.files.contains(file) {
                let directory = choose|directory: Seq<char>|
                    before.visited.contains(directory) && lists_file(answers, directory, file);
                assert(after.visited.contains(directory) && lists_file(answers, directory, file));
            } else {
                assert(after.visited.contains(current) && lists_file(answers, current, file));
            }
        }
    }
}

/// A traversal hands on nothing but what the file system listed: after any
/// number of rounds it is grounded.
pub proof fn lemma_walk_is_grounded(
    root: Seq<char>,
    answers: spec_fn(Seq<char>) -> ListingView,
    rounds: nat,
)
    ensures
        grounded(root, answers, traversal_after(root, answers, rounds)),
    decreases rounds,
{
    if rounds == 0 {
        let start = started(root);
        assert forall|directory: Seq<char>| #[trigger]
            start.pending.contains(directory) implies directory == root by {
            let i = choose|i: int| 0 <= i < start.pending.len() && start.pending[i] == directory;
        }
    } else {
        lemma_walk_is_grounded(root, answers, (rounds - 1) as nat);
        lemma_round_keeps_grounded(
            root,
            answers,
            traversal_after(root, answers, (rounds - 1) as nat),
        );
    }
}

/// What listing `directory` reports when the file system answers with
/// `answers`.
pub open spec fn reports(
    answers: spec_fn(Seq<char>) -> ListingView,
    directory: Seq<char>,
) -> Seq<DiagnosticView> {
    found_in(directory, answers(directory)).diagnostics
}

/// A tree in which every directory can be listed and every entry can be
/// read gives no diagnostic, however long the traversal goes on.
pub proof fn lemma_readable_tree_gives_no_diagnostic(
    root: Seq<char>,
    answers: spec_fn(Seq<char>) -> ListingView,
    rounds: nat,
)
    requires
        forall|directory: Seq<char>| #[trigger] reports(answers, directory).len() == 0,
    ensures
        traversal_after(root, answers, rounds).diagnostics.len() == 0,
    decreases rounds,
{
    if rounds > 0 {
        let before = traversal_after(root, answers, (rounds - 1) as nat);
        lemma_readable_tree_gives_no_diagnostic(root, answers, (rounds - 1) as nat);
        if before.pending.len() > 0 {
            assert(reports(answers, before.pending.last()).len() == 0);
        }
    }
}

/// The file system is a proper tree beneath `root`: nothing lists the root,
/// no directory and no file is listed in two directories, and no listing
/// names a subdirectory or a file twice.
pub open spec fn proper_tree(root: Seq<char>, answers: spec_fn(Seq<char>) -> ListingView) -> bool {
    &&& forall|directory: Seq<char>| !#[trigger] lists_directory(answers, directory, root)
    &&& forall|one: Seq<char>, other: Seq<char>, child: Seq<char>|
        #[trigger] lists_directory(answers, one, child) && #[trigger] lists_directory(
            answers,
            other,
            child,
        ) ==> one == other
    &&& forall|one: Seq<char>, other: Seq<char>, file: Seq<char>|
        #[trigger] lists_file(answers, one, file) && #[trigger] lists_file(answers, other, file)
            ==> one == other
    &&& forall|directory: Seq<char>| #[trigger]
        queued_by(answers(directory)).no_duplicates()
    &&& forall|directory: Seq<char>|
        (#[trigger] found_in(directory, answers(directory))).files.no_duplicates()
}

/// Nothing is held twice: no directory is both visited and pending, or twice
/// either, and no file has been handed on twice.
pub open spec fn tidy(state: Traversal) -> bool {
    &&& state.visited.no_duplicates()
    &&& state.pending.no_duplicates()
    &&& forall|directory: Seq<char>| #[trigger]
        state.visited.contains(directory) ==> !state.pending.contains(directory)
    &&& state.files.no_duplicates()
}

/// Two sequences without duplicates that share no item make one without
/// duplicates when put together.
proof fn lemma_no_duplicates_add(front: Seq<Seq<char>>, back: Seq<Seq<char>>)
    requires
        front.no_duplicates(),
        back.no_duplicates(),
        forall|item: Seq<char>| #[trigger] front.contains(item) ==> !back.contains(item),
    ensures
        (front + back).no_duplicates(),
{
    assert forall|i: int, j: int| 0 <= i < front.len() && 0 <= j < back.len() implies front[i]
        != back[j] by {
        assert(front.contains(front[i]));
        assert(back.contains(back[j]));
    }
    vstd::seq_lib::lemma_no_dup_in_concat(front, back);
}

/// One round keeps a grounded traversal over a proper tree tidy.
proof fn lemma_round_keeps_tidy(
    root: Seq<char>,
    answers: spec_fn(Seq<char>) -> ListingView,
    before: Traversal,
)
    requires
        proper_tree(root, answers),
        grounded(root, answers, before),
        tidy(before),
    ensures
        tidy(round(before, answers)),
{
    let after = round(before, answers);
    if before.pending.len() > 0 {
        let current = before.pending.last();
        let rest = before.pending.drop_last();
        let queued = queued_by(answers(current));
        let found = found_in(current, answers(current));
        let last = before.pending.len() - 1;
        assert(before.pending[last] == current);
        assert(before.pending.contains(current));
        assert(!before.visited.contains(current));
        // What was known before the round is not listed under the current
        // directory: it would be the root, or listed under a second one.
        assert forall|child: Seq<char>| #[trigger]
            queued.contains(child) implies !before.visited.contains(child)
            && !before.pending.contains(child) by {
            assert(lists_directory(answers, current, child));
            if before.visited.contains(child) || before.pending.contains(child) {
                assert(child != root);
                assert(directory_listed(answers, before.visited, child));
                let other = choose|other: Seq<char>|
                    before.visited.contains(other) && lists_directory(answers, other, child);
                assert(other == current);
            }
        }
        assert forall|item: Seq<char>| #[trigger] rest.contains(item) implies (
        before.pending.contains(item) && item != current) by {
            let i = choose|i: int| 0 <= i < rest.len() && rest[i] == item;
            assert(before.pending[i] == item);
        }
        assert(rest.no_duplicates()) by {
            assert forall|i: int, j: int|
                0 <= i < rest.len() && 0 <= j < rest.len() && i != j implies rest[i]
                != rest[j] by {
                assert(rest[i] == before.pending[i] && rest[j] == before.pending[j]);
            }
        }
        assert(queued.no_duplicates());
        lemma_no_duplicates_add(rest, queued);
        assert(after.visited.no_duplicates()) by {
            assert forall|i: int, j: int|
                0 <= i < after.visited.len() && 0 <= j < after.visited.len() && i
                    != j implies after.visited[i] != after.visited[j] by {
                if i < before.visited.len() {
                    assert(before.visited.contains(after.visited[i]));
                }
                if j < before.visited.len() {
                    assert(before.visited.contains(after.visited[j]));
                }
            }
        }
        assert forall|directory: Seq<char>| #[trigger]
            after.visited.contains(directory) implies !after.pending.contains(directory) by {
            lemma_contains_add(rest, queued, directory);
            let i = choose|i: int| 0 <= i < after.visited.len() && after.visited[i] == directory;
            if i < before.visited.len() {
                assert(before.visited.contains(directory));
            }
        }
        assert(found.files.no_duplicates());
        assert forall|file: Seq<char>| #[trigger]
            before.files.contains(file) implies !found.files.contains(file) by {
            if found.files.contains(file) {
                assert(lists_file(answers, current, file));
                assert(file_listed(answers, before.visited, file));
                let other = choose|other: Seq<char>|
                    before.visited.contains(other) && lists_file(answers, other, file);
                assert(other == current);
            }
        }
        lemma_no_duplicates_add(before.files, found.files);
    }
}

/// Over a proper tree a traversal visits no directory twice and hands on no
/// file twice, however long it goes on.
pub proof fn lemma_walk_is_tidy(
    root: Seq<char>,
    answers: spec_fn(Seq<char>) -> ListingView,
    rounds: nat,
)
    requires
        proper_tree(root, answers),
    ensures
        tidy(traversal_after(root, answers, rounds)),
    decreases rounds,
{
    if rounds == 0 {
        let start = started(root);
        assert forall|directory: Seq<char>| #[trigger]
            start.visited.contains(directory) implies !start.pending.contains(directory) by {
            let i = choose|i: int| 0 <= i < start.visited.len() && start.visited[i] == directory;
        }
    } else {
        let before = traversal_after(root, answers, (rounds - 1) as nat);
        lemma_walk_is_tidy(root, answers, (rounds - 1) as nat);
        lemma_walk_is_grounded(root, answers, (rounds - 1) as nat);
        lemma_round_keeps_tidy(root, answers, before);
    }
}

} // verus!
