//! The synthesizer: from the tokens of one log line to one compile command,
//! or to the diagnostic that says why there is none.

use vstd::prelude::*;
use crate::diagnostic::{Diagnostic, DiagnosticView};
use crate::index::{
    lemma_resolved_directory, lemma_shared_name_is_ambiguous, lemma_sole_holder_resolves,
    resolution_of, resolve_alike, DirectoryIndex, Resolution, ResolutionView, SourceFile,
};
use crate::path::{has_extension, parts_of, split_path, PathParts, PathPartsView};

verus! {

/// One record of the compilation database.
#[derive(Debug, Clone, PartialEq, Eq)]
pub struct CompileCommand {
    /// The name of the compiled file, without any directory.
    pub file: String,
    /// The directory that holds the compiled file.
    pub directory: String,
    /// The whole command line, token by token, the path of the file included.
    pub arguments: Vec<String>,
}

/// The mathematical value of a [`CompileCommand`].
pub struct CompileCommandView {
    pub file: Seq<char>,
    pub directory: Seq<char>,
    pub arguments: Seq<Seq<char>>,
}

impl View for CompileCommand {
    type V = CompileCommandView;

    open spec fn view(&self) -> CompileCommandView {
        CompileCommandView {
            file: self.file@,
            directory: self.directory@,
            arguments: self.arguments.deep_view(),
        }
    }
}

impl DeepView for CompileCommand {
    type V = CompileCommandView;

    open spec fn deep_view(&self) -> CompileCommandView {
        self@
    }
}

/// The outcome of synthesis as a mathematical value.
pub open spec fn outcome_view(outcome: Result<CompileCommand, Diagnostic>) -> Result<
    CompileCommandView,
    DiagnosticView,
> {
    match outcome {
        Ok(command) => Ok(command@),
        Err(diagnostic) => Err(diagnostic@),
    }
}

/// What a token list yields, given the parts of its last token and the files
/// of the source tree. The checks run in this order and the first that fails
/// decides: there are tokens; the last one names a file; that file has an
/// extension. The directory is the one in the token itself where it has one,
/// and otherwise the one that the tree gives to the file name. Where the
/// tree gives none the list is rejected: as a duplicate where several files
/// carry the name, and as not found where none does or the only one that
/// does was observed without a directory.
pub open spec fn synthesized(
    tokens: Seq<Seq<char>>,
    parts: PathPartsView,
    files: Seq<SourceFile>,
) -> Result<CompileCommandView, DiagnosticView> {
    if tokens.len() == 0 {
        Err(DiagnosticView::EmptyTokenList)
    } else if !parts.named() {
        Err(DiagnosticView::NoFileName { tokens })
    } else if !parts.has_extension() {
        Err(DiagnosticView::NoExtension { path: tokens.last() })
    } else {
        let file = parts.file_name->0;
        if parts.has_directory() {
            Ok(CompileCommandView { file, directory: parts.parent->0, arguments: tokens })
        } else {
            match resolution_of(files, file) {
                ResolutionView::Unique(directory) => Ok(
                    CompileCommandView { file, directory, arguments: tokens },
                ),
                ResolutionView::Ambiguous => Err(DiagnosticView::DuplicateEntries { file }),
                ResolutionView::Unseen => Err(DiagnosticView::PathNotFound { file }),
            }
        }
    }
}

/// What a token list yields when its last token is read as the platform reads
/// paths.
pub open spec fn command_of(tokens: Seq<Seq<char>>, files: Seq<SourceFile>) -> Result<
    CompileCommandView,
    DiagnosticView,
> {
    if tokens.len() == 0 {
        Err(DiagnosticView::EmptyTokenList)
    } else {
        synthesized(tokens, parts_of(tokens.last()), files)
    }
}

/// Builds the record for one token list whose last token has already been
/// split into `parts`, or says why there is none.
pub fn synthesize(index: &DirectoryIndex, tokens: Vec<String>, parts: PathParts) -> (outcome:
    Result<CompileCommand, Diagnostic>)
    ensures
        outcome_view(outcome) == synthesized(tokens.deep_view(), parts@, index@),
        outcome matches Ok(command) ==> command@.directory.len() > 0 && command@.file.len() > 0,
{
    if tokens.len() == 0 {
        return Err(Diagnostic::EmptyTokenList);
    }
    let PathParts { file_name, parent } = parts;
    let file = match file_name {
        Some(name) => {
            if name.as_str().is_empty() {
                return Err(Diagnostic::NoFileName { tokens });
            }
            name
        },
        None => {
            return Err(Diagnostic::NoFileName { tokens });
        },
    };
    if !has_extension(file.as_str()) {
        let path = tokens[tokens.len() - 1].clone();
        proof {
            assert(tokens.deep_view().last() == tokens[tokens.len() - 1]@);
        }
        return Err(Diagnostic::NoExtension { path });
    }
    match parent {
        Some(directory) => {
            if !directory.as_str().is_empty() {
                return Ok(CompileCommand { file, directory, arguments: tokens });
            }
        },
        None => {},
    }
    match index.resolve(file.as_str()) {
        Resolution::Unique(directory) => Ok(CompileCommand { file, directory, arguments: tokens }),
        Resolution::Ambiguous => Err(Diagnostic::DuplicateEntries { file }),
        Resolution::Unseen => Err(Diagnostic::PathNotFound { file }),
    }
}

/// Builds the record for one token list, or says why there is none.
pub fn create_compile_command(index: &DirectoryIndex, tokens: Vec<String>) -> (outcome: Result<
    CompileCommand,
    Diagnostic,
>)
    ensures
        outcome_view(outcome) == command_of(tokens.deep_view(), index@),
        outcome matches Ok(command) ==> command@.directory.len() > 0 && command@.file.len() > 0,
{
    if tokens.len() == 0 {
        return Err(Diagnostic::EmptyTokenList);
    }
    let parts = split_path(tokens[tokens.len() - 1].as_str());
    proof {
        assert(tokens.deep_view().last() == tokens[tokens.len() - 1]@);
    }
    synthesize(index, tokens, parts)
}

/// What a whole run of the synthesizer hands on: the records, and the
/// diagnostics for the token lists that gave none.
#[derive(Debug, Clone, PartialEq, Eq)]
pub struct Conversion {
    pub commands: Vec<CompileCommand>,
    pub diagnostics: Vec<Diagnostic>,
}

/// The mathematical value of a [`Conversion`].
pub struct ConversionView {
    pub commands: Seq<CompileCommandView>,
    pub diagnostics: Seq<DiagnosticView>,
}

impl View for Conversion {
    type V = ConversionView;

    open spec fn view(&self) -> ConversionView {
        ConversionView {
            commands: self.commands.deep_view(),
            diagnostics: self.diagnostics.deep_view(),
        }
    }
}

/// The record of a token list, if it has one.
pub open spec fn accepted(tokens: Seq<Seq<char>>, files: Seq<SourceFile>) -> Option<
    CompileCommandView,
> {
    match command_of(tokens, files) {
        Ok(command) => Some(command),
        Err(_) => None,
    }
}

/// The diagnostic of a token list, if it has no record.
pub open spec fn rejected(tokens: Seq<Seq<char>>, files: Seq<SourceFile>) -> Option<
    DiagnosticView,
> {
    match command_of(tokens, files) {
        Ok(_) => None,
        Err(diagnostic) => Some(diagnostic),
    }
}

/// Every record has a file name and a directory, neither of them empty.
pub open spec fn located(commands: Seq<CompileCommandView>) -> bool {
    forall|i: int|
        0 <= i < commands.len() ==> (#[trigger] commands[i]).directory.len() > 0
            && commands[i].file.len() > 0
}

/// What a sequence of token lists yields: the records of those that have
/// one and the diagnostics of the others, each in the order of the input.
pub open spec fn commands_of(token_lists: Seq<Seq<Seq<char>>>, files: Seq<SourceFile>)
    -> ConversionView {
    ConversionView {
        commands: token_lists.filter_map(|tokens: Seq<Seq<char>>| accepted(tokens, files)),
        diagnostics: token_lists.filter_map(|tokens: Seq<Seq<char>>| rejected(tokens, files)),
    }
}

/// Converts each token list into its record or its diagnostic.
pub fn create_compile_commands(index: &DirectoryIndex, token_lists: Vec<Vec<String>>) -> (out:
    Conversion)
    ensures
        out@ == commands_of(token_lists.deep_view(), index@),
        out.commands.len() + out.diagnostics.len() == token_lists.len(),
        located(out@.commands),
{
    let mut commands: Vec<CompileCommand> = Vec::new();
    let mut diagnostics: Vec<Diagnostic> = Vec::new();
    let ghost all = token_lists.deep_view();
    let ghost files = index@;
    let ghost taken = |tokens: Seq<Seq<char>>| accepted(tokens, files);
    let ghost refused = |tokens: Seq<Seq<char>>| rejected(tokens, files);
    for tokens in it: token_lists
        invariant
            files == index@,
            taken == |tokens: Seq<Seq<char>>| accepted(tokens, files),
            refused == |tokens: Seq<Seq<char>>| rejected(tokens, files),
            it.seq().len() == all.len(),
            forall|i: int| 0 <= i < all.len() ==> all[i] == (#[trigger] it.seq()[i]).deep_view(),
            commands.deep_view() == all.take(it.index()).filter_map(taken),
            diagnostics.deep_view() == all.take(it.index()).filter_map(refused),
            commands.len() + diagnostics.len() == it.index(),
            located(commands.deep_view()),
    {
        proof {
            all.lemma_filter_map_take_succ(taken, it.index());
            all.lemma_filter_map_take_succ(refused, it.index());
            assert(all[it.index()] == tokens.deep_view());
        }
        let ghost before_commands = commands.deep_view();
        let ghost before_diagnostics = diagnostics.deep_view();
        match create_compile_command(index, tokens) {
            Ok(command) => {
                commands.push(command);
                proof {
                    assert(commands.deep_view() == before_commands + seq![command@]);
                }
            },
            Err(diagnostic) => {
                diagnostics.push(diagnostic);
                proof {
                    assert(diagnostics.deep_view() == before_diagnostics + seq![diagnostic@]);
                }
            },
        }
    }
    proof {
        assert(all.take(all.len() as int) == all);
    }
    Conversion { commands, diagnostics }
}

/// Every token list is answered, by a record or by a diagnostic and never
/// by both: none is dropped in silence.
pub proof fn lemma_every_list_is_answered(
    token_lists: Seq<Seq<Seq<char>>>,
    files: Seq<SourceFile>,
)
    ensures
        commands_of(token_lists, files).commands.len() + commands_of(
            token_lists,
            files,
        ).diagnostics.len() == token_lists.len(),
        forall|tokens: Seq<Seq<char>>|
            accepted(tokens, files).is_some() != #[trigger] rejected(tokens, files).is_some(),
    decreases token_lists.len(),
{
    if token_lists.len() > 0 {
        lemma_every_list_is_answered(token_lists.drop_last(), files);
    }
}

/// Whatever the token lists and the tree, every record that comes out has a
/// file name and a directory, neither of them empty.
pub proof fn lemma_records_are_located(token_lists: Seq<Seq<Seq<char>>>, files: Seq<SourceFile>)
    ensures
        located(commands_of(token_lists, files).commands),
    decreases token_lists.len(),
{
    if token_lists.len() > 0 {
        let last = token_lists.last();
        lemma_records_are_located(token_lists.drop_last(), files);
        if last.len() > 0 {
            lemma_record_shape(last, parts_of(last.last()), files);
        }
    }
}

/// A record carries the whole token list as its arguments, the file name of
/// the last token as its file, and a directory that is not empty.
pub proof fn lemma_record_shape(
    tokens: Seq<Seq<char>>,
    parts: PathPartsView,
    files: Seq<SourceFile>,
)
    ensures
        synthesized(tokens, parts, files) matches Ok(command) ==> {
            &&& tokens.len() > 0
            &&& command.arguments == tokens
            &&& parts.file_name == Some(command.file)
            &&& command.file.len() > 0
            &&& command.directory.len() > 0
        },
{
    if parts.named() {
        lemma_resolved_directory(files, parts.file_name->0);
    }
}

/// A token list whose last token carries a directory of its own never
/// consults the index: whatever the tree holds, the outcome is the same, and
/// a record has that directory word for word.
pub proof fn lemma_embedded_directory_is_kept(
    tokens: Seq<Seq<char>>,
    parts: PathPartsView,
    files: Seq<SourceFile>,
    other_files: Seq<SourceFile>,
)
    requires
        parts.has_directory(),
    ensures
        synthesized(tokens, parts, files) == synthesized(tokens, parts, other_files),
        synthesized(tokens, parts, files) matches Ok(command) ==> Some(command.directory)
            == parts.parent,
        tokens.len() > 0 && parts == parts_of(tokens.last()) ==> {
            &&& command_of(tokens, files) == command_of(tokens, other_files)
            &&& command_of(tokens, files) matches Ok(command) ==> Some(command.directory)
                == parts.parent
        },
{
}

/// A token list that names a bare file falls back to the tree; where two or
/// more files of the tree carry that name it is rejected as a duplicate and
/// gets no directory.
pub proof fn lemma_shared_name_is_rejected(
    tokens: Seq<Seq<char>>,
    parts: PathPartsView,
    files: Seq<SourceFile>,
    i: int,
    j: int,
)
    requires
        tokens.len() > 0,
        parts.named(),
        parts.has_extension(),
        !parts.has_directory(),
        0 <= i < j < files.len(),
        files[i].name == parts.file_name->0,
        files[j].name == parts.file_name->0,
    ensures
        synthesized(tokens, parts, files) == Err::<CompileCommandView, DiagnosticView>(
            DiagnosticView::DuplicateEntries { file: parts.file_name->0 },
        ),
        parts == parts_of(tokens.last()) ==> command_of(tokens, files) == Err::<
            CompileCommandView,
            DiagnosticView,
        >(DiagnosticView::DuplicateEntries { file: parts.file_name->0 }),
{
    lemma_shared_name_is_ambiguous(files, i, j);
}

/// A token list that names a bare file whose name exactly one file of the
/// tree carries gets the directory of that file. Where that file was
/// observed without a directory the list is rejected as not found.
pub proof fn lemma_sole_name_is_resolved(
    tokens: Seq<Seq<char>>,
    parts: PathPartsView,
    files: Seq<SourceFile>,
    i: int,
)
    requires
        tokens.len() > 0,
        parts.named(),
        parts.has_extension(),
        !parts.has_directory(),
        0 <= i < files.len(),
        files[i].name == parts.file_name->0,
        forall|j: int| 0 <= j < files.len() && j != i ==> files[j].name != files[i].name,
    ensures
        synthesized(tokens, parts, files) == if files[i].directory.len() > 0 {
            Ok::<CompileCommandView, DiagnosticView>(
                CompileCommandView {
                    file: files[i].name,
                    directory: files[i].directory,
                    arguments: tokens,
                },
            )
        } else {
            Err::<CompileCommandView, DiagnosticView>(
                DiagnosticView::PathNotFound { file: files[i].name },
            )
        },
{
    lemma_sole_holder_resolves(files, i);
}

/// The outcome for a token list depends on the tree only through what the
/// tree says of each name: two trees that resolve every name alike give the
/// same outcome.
pub proof fn lemma_outcome_goes_by_resolution(
    tokens: Seq<Seq<char>>,
    parts: PathPartsView,
    files: Seq<SourceFile>,
    other_files: Seq<SourceFile>,
)
    requires
        resolve_alike(files, other_files),
    ensures
        synthesized(tokens, parts, files) == synthesized(tokens, parts, other_files),
        command_of(tokens, files) == command_of(tokens, other_files),
{
    if parts.named() {
        assert(resolution_of(files, parts.file_name->0) == resolution_of(
            other_files,
            parts.file_name->0,
        ));
    }
    if tokens.len() > 0 {
        let last = parts_of(tokens.last());
        if last.named() {
            assert(resolution_of(files, last.file_name->0) == resolution_of(
                other_files,
                last.file_name->0,
            ));
        }
    }
}

/// What a sequence of token lists yields depends on the tree only through
/// what the tree says of each name.
pub proof fn lemma_commands_go_by_resolution(
    token_lists: Seq<Seq<Seq<char>>>,
    files: Seq<SourceFile>,
    other_files: Seq<SourceFile>,
)
    requires
        resolve_alike(files, other_files),
    ensures
        commands_of(token_lists, files) == commands_of(token_lists, other_files),
{
    let taken = |tokens: Seq<Seq<char>>| accepted(tokens, files);
    let other_taken = |tokens: Seq<Seq<char>>| accepted(tokens, other_files);
    let refused = |tokens: Seq<Seq<char>>| rejected(tokens, files);
    let other_refused = |tokens: Seq<Seq<char>>| rejected(tokens, other_files);
    let nothing = parts_of(Seq::empty());
    assert forall|tokens: Seq<Seq<char>>| #[trigger] taken(tokens) == other_taken(tokens) by {
        lemma_outcome_goes_by_resolution(tokens, nothing, files, other_files);
    }
    assert forall|tokens: Seq<Seq<char>>| #[trigger] refused(tokens) == other_refused(tokens) by {
        lemma_outcome_goes_by_resolution(tokens, nothing, files, other_files);
    }
    assert(taken =~= other_taken);
    assert(refused =~= other_refused);
}

} // verus!
