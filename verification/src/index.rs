//! The directory index: which directory holds the file of a given name.
//!
//! The index is built once from the files of a source tree and then only read.
//! A name that one file carries resolves to that file's directory; a name that
//! two or more files carry is ambiguous and resolves to no directory at all.
//! Every observation of a name counts, also that of a path which names no
//! directory: such a file gives its name no directory, but it makes the name
//! ambiguous like any other.

use vstd::hash_map::StringHashMap;
use vstd::prelude::*;
use crate::path::{has_extension, parts_of, split_path, PathParts, PathPartsView};

verus! {

/// A file of the source tree: its name and the directory that holds it. The
/// directory is empty where the file was observed by a path that names none.
pub struct SourceFile {
    pub name: Seq<char>,
    pub directory: Seq<char>,
}

/// What the index knows of a file name.
#[derive(Debug, Clone, PartialEq, Eq)]
pub enum Resolution {
    /// No directory is known for that name: no file of that name was
    /// observed, or one alone, by a path that names no directory.
    Unseen,
    /// Exactly one file of that name was observed, in this directory. The
    /// directory is never empty.
    Unique(String),
    /// Two or more files of that name were observed.
    Ambiguous,
}

/// The mathematical value of a [`Resolution`].
pub enum ResolutionView {
    Unseen,
    Unique(Seq<char>),
    Ambiguous,
}

impl View for Resolution {
    type V = ResolutionView;

    open spec fn view(&self) -> ResolutionView {
        match self {
            Resolution::Unseen => ResolutionView::Unseen,
            Resolution::Unique(directory) => ResolutionView::Unique(directory@),
            Resolution::Ambiguous => ResolutionView::Ambiguous,
        }
    }
}

/// The files among `files` that carry `name`, in the order of `files`.
pub open spec fn holders(files: Seq<SourceFile>, name: Seq<char>) -> Seq<SourceFile> {
    files.filter(|file: SourceFile| file.name == name)
}

/// What a tree made of `files` says of `name`: ambiguous where several files
/// carry it, the directory of the one file that does where that directory is
/// not empty, and unseen otherwise, that is where no file carries the name or
/// the one that does has no directory.
pub open spec fn resolution_of(files: Seq<SourceFile>, name: Seq<char>) -> ResolutionView {
    let found = holders(files, name);
    if found.len() >= 2 {
        ResolutionView::Ambiguous
    } else if found.len() == 1 && found[0].directory.len() > 0 {
        ResolutionView::Unique(found[0].directory)
    } else {
        ResolutionView::Unseen
    }
}

/// The file that a path stands for in the index: every path with a file name
/// and a non-empty extension stands for one, with what the path carries in
/// front of the name as its directory. Any other path is left out.
pub open spec fn indexable(parts: PathPartsView) -> Option<SourceFile> {
    if parts.named() && parts.has_extension() {
        Some(SourceFile { name: parts.file_name->0, directory: parts.directory() })
    } else {
        None
    }
}

/// The files that a sequence of paths contributes to the index, in order.
pub open spec fn tree_of(paths: Seq<Seq<char>>) -> Seq<SourceFile> {
    paths.filter_map(|path: Seq<char>| indexable(parts_of(path)))
}

/// What the index keeps for a name that it has seen.
enum Slot {
    /// One file carries the name; its directory, which may be empty.
    Single(String),
    /// Two or more files carry the name.
    Several,
}

/// The slot of `name` agrees with the holders of `name` among `files`.
spec fn agrees(slots: Map<Seq<char>, Slot>, files: Seq<SourceFile>, name: Seq<char>) -> bool {
    let found = holders(files, name);
    if slots.contains_key(name) {
        match slots[name] {
            Slot::Single(directory) => found.len() == 1 && found[0].directory == directory@,
            Slot::Several => found.len() >= 2,
        }
    } else {
        found.len() == 0
    }
}

/// Lookup from file name to containing directory.
pub struct DirectoryIndex {
    slots: StringHashMap<Slot>,
    observed: Ghost<Seq<SourceFile>>,
}

impl View for DirectoryIndex {
    type V = Seq<SourceFile>;

    /// The files observed so far, in the order in which they came.
    closed spec fn view(&self) -> Seq<SourceFile> {
        self.observed@
    }
}

impl DirectoryIndex {
    #[verifier::type_invariant]
    spec fn well_formed(self) -> bool {
        forall|name: Seq<char>| #[trigger] agrees(self.slots@, self.observed@, name)
    }

    /// What the index says of `name`.
    pub open spec fn resolution(&self, name: Seq<char>) -> ResolutionView {
        resolution_of(self@, name)
    }

    /// An index that has observed no file.
    pub fn new() -> (index: Self)
        ensures
            index@ == Seq::<SourceFile>::empty(),
    {
        DirectoryIndex { slots: StringHashMap::new(), observed: Ghost(Seq::empty()) }
    }

    /// Takes in one path by its parts. A path with a file name and a non-empty
    /// extension is recorded: the first file of a name gives the name its
    /// directory, any later one makes the name ambiguous, whether or not
    /// either path names a directory. Any other path changes nothing.
    /// Returns whether the path was recorded.
    pub fn record(&mut self, parts: PathParts) -> (recorded: bool)
        ensures
            final(self)@ == match indexable(parts@) {
                Some(file) => old(self)@.push(file),
                None => old(self)@,
            },
            recorded == indexable(parts@).is_some(),
    {
        proof {
            use_type_invariant(&*self);
        }
        let PathParts { file_name, parent } = parts;
        let name = match file_name {
            Some(name) => name,
            None => {
                return false;
            },
        };
        if name.as_str().is_empty() || !has_extension(name.as_str()) {
            return false;
        }
        let directory = match parent {
            Some(directory) => directory,
            None => String::new(),
        };
        // The index is taken out and put back whole, so that what `self`
        // holds is a well-formed index at every step.
        let mut taken = DirectoryIndex::new();
        std::mem::swap(self, &mut taken);
        let DirectoryIndex { slots, observed } = taken;
        let mut slots = slots;
        let ghost file = SourceFile { name: name@, directory: directory@ };
        let ghost before = slots@;
        proof {
            lemma_holders_push(observed@, file);
        }
        let slot = if slots.contains_key(name.as_str()) {
            Slot::Several
        } else {
            Slot::Single(directory)
        };
        slots.insert(name, slot);
        proof {
            assert forall|other: Seq<char>| #[trigger]
                agrees(slots@, observed@.push(file), other) by {
                assert(agrees(before, observed@, other));
            }
        }
        *self = DirectoryIndex { slots, observed: Ghost(observed@.push(file)) };
        true
    }

    /// Takes in one path of the source tree, read as the platform reads paths.
    /// Returns whether the path was recorded.
    pub fn observe(&mut self, path: &str) -> (recorded: bool)
        ensures
            final(self)@ == match indexable(parts_of(path@)) {
                Some(file) => old(self)@.push(file),
                None => old(self)@,
            },
            recorded == indexable(parts_of(path@)).is_some(),
    {
        self.record(split_path(path))
    }

    /// Looks `name` up.
    pub fn resolve(&self, name: &str) -> (resolution: Resolution)
        ensures
            resolution@ == self.resolution(name@),
            resolution@ matches ResolutionView::Unique(directory) ==> directory.len() > 0,
    {
        proof {
            use_type_invariant(self);
            assert(agrees(self.slots@, self.observed@, name@));
        }
        match self.slots.get(name) {
            Some(Slot::Single(directory)) => {
                if directory.as_str().is_empty() {
                    Resolution::Unseen
                } else {
                    Resolution::Unique(directory.clone())
                }
            },
            Some(Slot::Several) => Resolution::Ambiguous,
            None => Resolution::Unseen,
        }
    }
}

/// Generates the index of all the files among `paths`.
pub fn build_file_map(paths: &Vec<String>) -> (index: DirectoryIndex)
    ensures
        index@ == tree_of(paths.deep_view()),
{
    let mut index = DirectoryIndex::new();
    let ghost all = paths.deep_view();
    for i in 0..paths.len()
        invariant
            all == paths.deep_view(),
            index@ == tree_of(all.take(i as int)),
    {
        proof {
            all.lemma_filter_map_take_succ(|path: Seq<char>| indexable(parts_of(path)), i as int);
            assert(all[i as int] == paths[i as int]@);
        }
        index.observe(paths[i].as_str());
    }
    proof {
        assert(all.take(paths.len() as int) == all);
    }
    index
}

/// Adding a file at the end of a tree adds it to the holders of its own name
/// and leaves the holders of every other name as they were.
proof fn lemma_holders_push(files: Seq<SourceFile>, file: SourceFile)
    ensures
        forall|name: Seq<char>| #[trigger]
            holders(files.push(file), name) == if file.name == name {
                holders(files, name).push(file)
            } else {
                holders(files, name)
            },
{
    assert forall|name: Seq<char>| #[trigger]
        holders(files.push(file), name) == if file.name == name {
            holders(files, name).push(file)
        } else {
            holders(files, name)
        } by {
        files.lemma_filter_push(file, |other: SourceFile| other.name == name);
    }
}

/// A name resolves only to the directory of a file of the tree that carries
/// it, and never to an empty one.
pub proof fn lemma_resolved_directory(files: Seq<SourceFile>, name: Seq<char>)
    ensures
        resolution_of(files, name) matches ResolutionView::Unique(directory) ==> {
            &&& directory.len() > 0
            &&& exists|i: int|
                0 <= i < files.len() && #[trigger] files[i] == SourceFile { name, directory }
        },
{
    let found = holders(files, name);
    if found.len() == 1 {
        let carries = |file: SourceFile| file.name == name;
        files.lemma_filter_pred(carries, 0);
        assert(files.filter(carries).contains(found[0]));
        files.lemma_filter_contains_rev(carries, found[0]);
        let i = choose|i: int| 0 <= i < files.len() && files[i] == found[0];
        assert(files[i] == SourceFile { name, directory: found[0].directory });
    }
}

/// A name that no file of the tree carries has no holder.
proof fn lemma_no_holder(files: Seq<SourceFile>, name: Seq<char>)
    requires
        forall|j: int| 0 <= j < files.len() ==> files[j].name != name,
    ensures
        holders(files, name).len() == 0,
    decreases files.len(),
{
    if files.len() > 0 {
        let rest = files.drop_last();
        lemma_no_holder(rest, name);
        lemma_holders_push(rest, files.last());
        assert(rest.push(files.last()) == files);
    }
}

/// A name that some file of the tree carries has at least one holder.
proof fn lemma_some_holder(files: Seq<SourceFile>, i: int)
    requires
        0 <= i < files.len(),
    ensures
        holders(files, files[i].name).len() >= 1,
    decreases files.len(),
{
    let rest = files.drop_last();
    lemma_holders_push(rest, files.last());
    assert(rest.push(files.last()) == files);
    if i < files.len() - 1 {
        lemma_some_holder(rest, i);
    }
}

/// A name that no file of the tree carries is unseen.
pub proof fn lemma_absent_name_is_unseen(files: Seq<SourceFile>, name: Seq<char>)
    requires
        forall|j: int| 0 <= j < files.len() ==> files[j].name != name,
    ensures
        resolution_of(files, name) == ResolutionView::Unseen,
{
    lemma_no_holder(files, name);
}

/// A name that exactly one file of the tree carries resolves to the
/// directory of that file, and is unseen where that file has none.
pub proof fn lemma_sole_holder_resolves(files: Seq<SourceFile>, i: int)
    requires
        0 <= i < files.len(),
        forall|j: int| 0 <= j < files.len() && j != i ==> files[j].name != files[i].name,
    ensures
        holders(files, files[i].name) == seq![files[i]],
        resolution_of(files, files[i].name) == if files[i].directory.len() > 0 {
            ResolutionView::Unique(files[i].directory)
        } else {
            ResolutionView::Unseen
        },
    decreases files.len(),
{
    let name = files[i].name;
    let rest = files.drop_last();
    lemma_holders_push(rest, files.last());
    assert(rest.push(files.last()) == files);
    if i == files.len() - 1 {
        lemma_no_holder(rest, name);
        assert(holders(files, name) == seq![files[i]]);
    } else {
        lemma_sole_holder_resolves(rest, i);
    }
}

/// In a source tree with no duplicate file names, every file that lies in a
/// directory is resolvable from the index by name alone: its name resolves
/// to its own directory.
pub proof fn lemma_distinct_names_resolve(files: Seq<SourceFile>, i: int)
    requires
        0 <= i < files.len(),
        files[i].directory.len() > 0,
        forall|a: int, b: int| 0 <= a < b < files.len() ==> files[a].name != files[b].name,
    ensures
        resolution_of(files, files[i].name) == ResolutionView::Unique(files[i].directory),
{
    assert forall|j: int| 0 <= j < files.len() && j != i implies files[j].name
        != files[i].name by {
        if j < i {
            assert(files[j].name != files[i].name);
        } else {
            assert(files[i].name != files[j].name);
        }
    }
    lemma_sole_holder_resolves(files, i);
}

/// In a source tree where two or more files share a name, that name is
/// ambiguous: it resolves to no directory and is not unseen, whatever the
/// order of the files and whether or not they lie in a directory.
pub proof fn lemma_shared_name_is_ambiguous(files: Seq<SourceFile>, i: int, j: int)
    requires
        0 <= i < j < files.len(),
        files[i].name == files[j].name,
    ensures
        holders(files, files[i].name).len() >= 2,
        resolution_of(files, files[i].name) == ResolutionView::Ambiguous,
    decreases files.len(),
{
    let rest = files.drop_last();
    lemma_holders_push(rest, files.last());
    assert(rest.push(files.last()) == files);
    if j == files.len() - 1 {
        lemma_some_holder(rest, i);
    } else {
        lemma_shared_name_is_ambiguous(rest, i, j);
    }
}

/// What a filter keeps of a sequence, taken as a collection without order,
/// is what it keeps of the sequence taken as a collection without order.
proof fn lemma_filter_as_multiset<A>(items: Seq<A>, wanted: spec_fn(A) -> bool)
    ensures
        items.filter(wanted).to_multiset() == items.to_multiset().filter(wanted),
    decreases items.len(),
{
    broadcast use {vstd::multiset::group_multiset_axioms, vstd::seq_lib::group_to_multiset_ensures};

    if items.len() == 0 {
        assert(items.filter(wanted).to_multiset() =~= items.to_multiset().filter(wanted));
    } else {
        let rest = items.drop_last();
        let last = items.last();
        lemma_filter_as_multiset(rest, wanted);
        rest.lemma_filter_push(last, wanted);
        assert(rest.push(last) == items);
        assert(items.filter(wanted).to_multiset() =~= items.to_multiset().filter(wanted));
    }
}

/// The order in which the files of a tree are observed does not matter: two
/// trees that hold the same files resolve every name alike.
pub proof fn lemma_resolution_ignores_order(
    files: Seq<SourceFile>,
    other_files: Seq<SourceFile>,
    name: Seq<char>,
)
    requires
        files.to_multiset() == other_files.to_multiset(),
    ensures
        resolution_of(files, name) == resolution_of(other_files, name),
{
    lemma_filter_as_multiset(files, |file: SourceFile| file.name == name);
    lemma_filter_as_multiset(other_files, |file: SourceFile| file.name == name);
    let found = holders(files, name);
    let other_found = holders(other_files, name);
    found.to_multiset_ensures();
    other_found.to_multiset_ensures();
    if found.len() == 1 {
        assert(found.contains(found[0]));
        assert(found.to_multiset().count(found[0]) > 0);
        assert(other_found.to_multiset().count(found[0]) > 0);
        assert(other_found.contains(found[0]));
    }
}

/// The path stands for a file of the tree that carries `name`: it has that
/// file name, with an extension that is not empty.
pub open spec fn names(path: Seq<char>, name: Seq<char>) -> bool {
    indexable(parts_of(path)) matches Some(file) && file.name == name
}

/// One more path adds its file, if it stands for one, to the holders of that
/// file's name and leaves the holders of every other name as they were.
proof fn lemma_path_holders_push(paths: Seq<Seq<char>>, path: Seq<char>, name: Seq<char>)
    ensures
        holders(tree_of(paths.push(path)), name) == if names(path, name) {
            holders(tree_of(paths), name).push(indexable(parts_of(path))->0)
        } else {
            holders(tree_of(paths), name)
        },
{
    let file_of = |path: Seq<char>| indexable(parts_of(path));
    let longer = paths.push(path);
    assert(longer.drop_last() == paths);
    match file_of(path) {
        Some(file) => {
            assert(tree_of(longer) == tree_of(paths).push(file));
            lemma_holders_push(tree_of(paths), file);
        },
        None => {},
    }
}

/// A name that no path stands for has no holder.
proof fn lemma_no_path_no_holder(paths: Seq<Seq<char>>, name: Seq<char>)
    requires
        forall|j: int| 0 <= j < paths.len() ==> !names(#[trigger] paths[j], name),
    ensures
        holders(tree_of(paths), name).len() == 0,
    decreases paths.len(),
{
    if paths.len() > 0 {
        let rest = paths.drop_last();
        assert forall|j: int| 0 <= j < rest.len() implies !names(#[trigger] rest[j], name) by {
            assert(rest[j] == paths[j]);
        }
        lemma_no_path_no_holder(rest, name);
        lemma_path_holders_push(rest, paths.last(), name);
        assert(rest.push(paths.last()) == paths);
    }
}

/// A name that some path stands for has at least one holder.
proof fn lemma_some_path_some_holder(paths: Seq<Seq<char>>, i: int, name: Seq<char>)
    requires
        0 <= i < paths.len(),
        names(paths[i], name),
    ensures
        holders(tree_of(paths), name).len() >= 1,
    decreases paths.len(),
{
    let rest = paths.drop_last();
    lemma_path_holders_push(rest, paths.last(), name);
    assert(rest.push(paths.last()) == paths);
    if i < paths.len() - 1 {
        assert(rest[i] == paths[i]);
        lemma_some_path_some_holder(rest, i, name);
    }
}

/// Where two or more of the observed paths stand for files of one name, at
/// any positions and in any order, with or without a directory, the index
/// built from them holds that name as ambiguous: it resolves to no
/// directory and is not unseen.
pub proof fn lemma_shared_name_among_paths(
    paths: Seq<Seq<char>>,
    i: int,
    j: int,
    name: Seq<char>,
)
    requires
        0 <= i < j < paths.len(),
        names(paths[i], name),
        names(paths[j], name),
    ensures
        holders(tree_of(paths), name).len() >= 2,
        resolution_of(tree_of(paths), name) == ResolutionView::Ambiguous,
    decreases paths.len(),
{
    let rest = paths.drop_last();
    lemma_path_holders_push(rest, paths.last(), name);
    assert(rest.push(paths.last()) == paths);
    assert(rest[i] == paths[i]);
    if j == paths.len() - 1 {
        lemma_some_path_some_holder(rest, i, name);
    } else {
        assert(rest[j] == paths[j]);
        lemma_shared_name_among_paths(rest, i, j, name);
    }
}

/// Where exactly one of the observed paths stands for a file of a name, the
/// index built from them resolves that name to the directory of that path,
/// and holds it as unseen where the path names no directory.
pub proof fn lemma_sole_name_among_paths(paths: Seq<Seq<char>>, i: int, name: Seq<char>)
    requires
        0 <= i < paths.len(),
        names(paths[i], name),
        forall|j: int| 0 <= j < paths.len() && j != i ==> !names(#[trigger] paths[j], name),
    ensures
        holders(tree_of(paths), name) == seq![indexable(parts_of(paths[i]))->0],
        resolution_of(tree_of(paths), name) == if parts_of(paths[i]).has_directory() {
            ResolutionView::Unique(parts_of(paths[i]).directory())
        } else {
            ResolutionView::Unseen
        },
    decreases paths.len(),
{
    let file = indexable(parts_of(paths[i]))->0;
    let rest = paths.drop_last();
    lemma_path_holders_push(rest, paths.last(), name);
    assert(rest.push(paths.last()) == paths);
    if i == paths.len() - 1 {
        assert forall|j: int| 0 <= j < rest.len() implies !names(#[trigger] rest[j], name) by {
            assert(rest[j] == paths[j]);
        }
        lemma_no_path_no_holder(rest, name);
        assert(holders(tree_of(paths), name) == seq![file]);
    } else {
        assert(rest[i] == paths[i]);
        assert forall|j: int| 0 <= j < rest.len() && j != i implies !names(
            #[trigger] rest[j],
            name,
        ) by {
            assert(rest[j] == paths[j]);
        }
        lemma_sole_name_among_paths(rest, i, name);
    }
}

/// The holders of a name are as many as the paths that stand for a file of
/// that name, and where that is one path, its file is the holder.
proof fn lemma_holders_follow_paths(paths: Seq<Seq<char>>, name: Seq<char>)
    ensures
        holders(tree_of(paths), name).len() == paths.filter(
            |path: Seq<char>| names(path, name),
        ).len(),
        paths.filter(|path: Seq<char>| names(path, name)).len() == 1 ==> holders(
            tree_of(paths),
            name,
        ) == seq![
            indexable(parts_of(paths.filter(|path: Seq<char>| names(path, name))[0]))->0,
        ],
    decreases paths.len(),
{
    let standing = |path: Seq<char>| names(path, name);
    if paths.len() > 0 {
        let rest = paths.drop_last();
        let last = paths.last();
        lemma_holders_follow_paths(rest, name);
        lemma_path_holders_push(rest, last, name);
        rest.lemma_filter_push(last, standing);
        assert(rest.push(last) == paths);
        if paths.filter(standing).len() == 1 {
            if names(last, name) {
                assert(holders(tree_of(paths), name) == seq![indexable(parts_of(last))->0]);
            }
        }
    }
}

/// The order in which the paths of a tree are observed does not matter: two
/// runs over the same paths give indexes that resolve every name alike.
pub proof fn lemma_resolution_ignores_path_order(
    paths: Seq<Seq<char>>,
    other_paths: Seq<Seq<char>>,
    name: Seq<char>,
)
    requires
        paths.to_multiset() == other_paths.to_multiset(),
    ensures
        resolution_of(tree_of(paths), name) == resolution_of(tree_of(other_paths), name),
{
    let standing = |path: Seq<char>| names(path, name);
    lemma_filter_as_multiset(paths, standing);
    lemma_filter_as_multiset(other_paths, standing);
    lemma_holders_follow_paths(paths, name);
    lemma_holders_follow_paths(other_paths, name);
    let found = paths.filter(standing);
    let other_found = other_paths.filter(standing);
    found.to_multiset_ensures();
    other_found.to_multiset_ensures();
    if found.len() == 1 {
        assert(found.contains(found[0]));
        assert(found.to_multiset().count(found[0]) > 0);
        assert(other_found.to_multiset().count(found[0]) > 0);
        assert(other_found.contains(found[0]));
    }
}

/// Two trees resolve every name alike.
pub open spec fn resolve_alike(files: Seq<SourceFile>, other_files: Seq<SourceFile>) -> bool {
    forall|name: Seq<char>| #[trigger]
        resolution_of(files, name) == resolution_of(other_files, name)
}

/// Two trees that hold the same files, in whatever order, resolve every name
/// alike.
pub proof fn lemma_same_files_resolve_alike(files: Seq<SourceFile>, other_files: Seq<SourceFile>)
    requires
        files.to_multiset() == other_files.to_multiset(),
    ensures
        resolve_alike(files, other_files),
{
    assert forall|name: Seq<char>| #[trigger]
        resolution_of(files, name) == resolution_of(other_files, name) by {
        lemma_resolution_ignores_order(files, other_files, name);
    }
}

/// Two indexes built from the same paths, in whatever order, resolve every
/// name alike.
pub proof fn lemma_same_paths_resolve_alike(paths: Seq<Seq<char>>, other_paths: Seq<Seq<char>>)
    requires
        paths.to_multiset() == other_paths.to_multiset(),
    ensures
        resolve_alike(tree_of(paths), tree_of(other_paths)),
{
    assert forall|name: Seq<char>| #[trigger]
        resolution_of(tree_of(paths), name) == resolution_of(tree_of(other_paths), name) by {
        lemma_resolution_ignores_path_order(paths, other_paths, name);
    }
}

} // verus!
