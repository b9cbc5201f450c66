//! The conversion pipeline: from the lines of a build log to the records of
//! the compilation database, stage by stage.

use vstd::prelude::*;
use crate::command::{
    commands_of, create_compile_commands, lemma_commands_go_by_resolution, located, Conversion,
    ConversionView,
};
use crate::filter::{find_all_lines, matching_lines};
use crate::index::{
    lemma_same_files_resolve_alike, lemma_same_paths_resolve_alike, tree_of, DirectoryIndex,
    SourceFile,
};
use crate::sanitize::{cleaned_lines, cleanup_lines};
use crate::tokenize::{token_lists_of, tokenize_lines};

verus! {

/// What a build log yields against a source tree: the lines that mention the
/// compiler are kept, stripped of their quotes, split into tokens, and each
/// token list is turned into its record or its diagnostic.
pub open spec fn conversion_of(
    lines: Seq<Seq<char>>,
    executable: Seq<char>,
    files: Seq<SourceFile>,
) -> ConversionView {
    commands_of(token_lists_of(cleaned_lines(matching_lines(lines, executable))), files)
}

/// Runs the whole pipeline over the lines of a build log.
pub fn convert(lines: &Vec<String>, executable: &str, index: &DirectoryIndex) -> (out: Conversion)
    ensures
        out@ == conversion_of(lines.deep_view(), executable@, index@),
        located(out@.commands),
{
    let matched = find_all_lines(lines, executable);
    let clean = cleanup_lines(&matched);
    let token_lists = tokenize_lines(&clean);
    create_compile_commands(index, token_lists)
}

/// Running the pipeline again on the same log, with the same compiler name
/// and against a tree that holds the same files, gives the same records and
/// the same diagnostics, whatever the order in which the files of the tree
/// were observed: the two outputs are equal as collections.
pub proof fn lemma_conversion_is_repeatable(
    lines: Seq<Seq<char>>,
    executable: Seq<char>,
    files: Seq<SourceFile>,
    other_files: Seq<SourceFile>,
    first: ConversionView,
    second: ConversionView,
)
    requires
        files.to_multiset() == other_files.to_multiset(),
        first == conversion_of(lines, executable, files),
        second == conversion_of(lines, executable, other_files),
    ensures
        first == second,
        first.commands.to_set() == second.commands.to_set(),
        first.commands.to_multiset() == second.commands.to_multiset(),
        first.diagnostics.to_multiset() == second.diagnostics.to_multiset(),
{
    lemma_same_files_resolve_alike(files, other_files);
    lemma_commands_go_by_resolution(
        token_lists_of(cleaned_lines(matching_lines(lines, executable))),
        files,
        other_files,
    );
}

/// The same holds from the paths on: two runs on the same log whose indexes
/// were built from the same paths, observed in whatever order, give the same
/// output.
pub proof fn lemma_conversion_ignores_path_order(
    lines: Seq<Seq<char>>,
    executable: Seq<char>,
    paths: Seq<Seq<char>>,
    other_paths: Seq<Seq<char>>,
)
    requires
        paths.to_multiset() == other_paths.to_multiset(),
    ensures
        conversion_of(lines, executable, tree_of(paths)) == conversion_of(
            lines,
            executable,
            tree_of(other_paths),
        ),
{
    lemma_same_paths_resolve_alike(paths, other_paths);
    lemma_commands_go_by_resolution(
        token_lists_of(cleaned_lines(matching_lines(lines, executable))),
        tree_of(paths),
        tree_of(other_paths),
    );
}

} // verus!
