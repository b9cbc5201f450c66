use compile_commands::diagnostic::join_spaced;
use compile_commands::{build_file_map, convert, CompileCommand, Diagnostic, DirectoryIndex};

fn words(items: &[&str]) -> Vec<String> {
    items.iter().map(|item| item.to_string()).collect()
}

fn record(file: &str, directory: &str, arguments: &[&str]) -> CompileCommand {
    CompileCommand {
        file: file.to_string(),
        directory: directory.to_string(),
        arguments: words(arguments),
    }
}

#[test]
fn round_trip_of_a_bare_file() {
    let index = build_file_map(&words(&["/src/app/main.cpp"]));
    let out = convert(&words(&["cl.exe /c /Ox main.cpp"]), "cl.exe", &index);
    assert_eq!(
        out.commands,
        vec![record("main.cpp", "/src/app", &["cl.exe", "/c", "/Ox", "main.cpp"])]
    );
    assert!(out.diagnostics.is_empty());
}

#[test]
fn embedded_directory_regardless_of_index() {
    let line = words(&["cl.exe /c /Ox /src/app/main.cpp"]);
    let expected =
        vec![record("main.cpp", "/src/app", &["cl.exe", "/c", "/Ox", "/src/app/main.cpp"])];
    for index in [
        DirectoryIndex::new(),
        build_file_map(&words(&["/elsewhere/main.cpp"])),
        build_file_map(&words(&["/a/main.cpp", "/b/main.cpp"])),
    ] {
        let out = convert(&line, "cl.exe", &index);
        assert_eq!(out.commands, expected);
        assert!(out.diagnostics.is_empty());
    }
}

#[test]
fn line_without_extension_gives_no_record() {
    let index = build_file_map(&words(&["/src/app/main.cpp"]));
    let out = convert(&words(&["cl.exe /c noext"]), "cl.exe", &index);
    assert!(out.commands.is_empty());
    assert_eq!(out.diagnostics.len(), 1);
    assert_eq!(out.diagnostics[0], Diagnostic::NoExtension { path: "noext".to_string() });
    assert_eq!(out.diagnostics[0].message(), "no extension in path: noext");
}

#[test]
fn ambiguous_file_gives_no_record() {
    let index = build_file_map(&words(&["/src/a/util.cpp", "/src/b/util.cpp"]));
    let out = convert(&words(&["cl.exe /c util.cpp"]), "cl.exe", &index);
    assert!(out.commands.is_empty());
    assert_eq!(
        out.diagnostics,
        vec![Diagnostic::DuplicateEntries { file: "util.cpp".to_string() }]
    );
}

#[test]
fn quotes_are_stripped_before_the_split() {
    let index = build_file_map(&words(&["/src/app/main.cpp"]));
    let out = convert(
        &words(&["  \"C:/VS/CL.exe\" /c \"/I\"inc\"\" \"main.cpp\""]),
        "cl.exe",
        &index,
    );
    assert_eq!(
        out.commands,
        vec![record("main.cpp", "/src/app", &["C:/VS/CL.exe", "/c", "/Iinc", "main.cpp"])]
    );
}

#[test]
fn other_lines_are_dropped_without_a_diagnostic() {
    let index = build_file_map(&words(&["/src/app/main.cpp"]));
    let log = words(&[
        "Build started.",
        "  cl.exe /c main.cpp",
        "  link.exe /out:app.exe main.obj",
        "",
        "  CL.EXE /c /src/lib/io.c",
        "  cl.exe /c missing.cpp",
        "Done.",
    ]);
    let out = convert(&log, "cl.exe", &index);
    assert_eq!(
        out.commands,
        vec![
            record("main.cpp", "/src/app", &["cl.exe", "/c", "main.cpp"]),
            record("io.c", "/src/lib", &["CL.EXE", "/c", "/src/lib/io.c"]),
        ]
    );
    assert_eq!(out.diagnostics, vec![Diagnostic::PathNotFound { file: "missing.cpp".to_string() }]);
    assert_eq!(out.diagnostics[0].message(), "path not found: missing.cpp");
}

#[test]
fn running_twice_gives_the_same_collections() {
    let paths = words(&["/src/app/main.cpp", "/src/a/util.cpp", "/src/b/util.cpp", "/src/c/x.c"]);
    let log = words(&[
        "cl.exe /c main.cpp",
        "cl.exe /c util.cpp",
        "cl.exe /c \"/abs/dir/y.c\"",
        "cl.exe /c noext",
        "cl.exe x.c",
    ]);
    let first = convert(&log, "cl.exe", &build_file_map(&paths));
    let second = convert(&log, "cl.exe", &build_file_map(&paths));
    assert_eq!(first, second);
    let mut reversed = paths.clone();
    reversed.reverse();
    let third = convert(&log, "cl.exe", &build_file_map(&reversed));
    assert_eq!(first, third);
    assert_eq!(first.commands.len(), 3);
    assert_eq!(first.diagnostics.len(), 2);
}

#[test]
fn empty_log_gives_nothing() {
    let out = convert(&Vec::new(), "cl.exe", &DirectoryIndex::new());
    assert!(out.commands.is_empty());
    assert!(out.diagnostics.is_empty());
}

#[test]
fn empty_name_lets_blank_lines_through_to_the_synthesizer() {
    let out = convert(&words(&["   ", "a/b.c"]), "", &DirectoryIndex::new());
    assert_eq!(out.commands, vec![record("b.c", "a", &["a/b.c"])]);
    assert_eq!(out.diagnostics, vec![Diagnostic::EmptyTokenList]);
    assert_eq!(out.diagnostics[0].message(), "empty token list");
}

#[test]
fn message_names_the_token_list_without_a_file_name() {
    let diagnostic = Diagnostic::NoFileName { tokens: words(&["cl.exe", "/c", ".."]) };
    assert_eq!(diagnostic.message(), "no file name in last token: cl.exe /c ..");
    assert_eq!(join_spaced(&words(&["a"])), "a");
    assert_eq!(join_spaced(&Vec::new()), "");
    assert_eq!(join_spaced(&words(&["a", "", "b"])), "a  b");
}
