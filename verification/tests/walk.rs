use compile_commands::{Diagnostic, Entry, Listing, TreeWalk};

fn dir(path: &str) -> Entry {
    Entry::Directory { path: path.to_string() }
}

fn file(path: &str) -> Entry {
    Entry::File { path: path.to_string() }
}

#[test]
fn walk_starts_at_the_root() {
    let mut walk = TreeWalk::new("/src".to_string());
    assert!(!walk.is_finished());
    assert_eq!(walk.next_directory(), Some("/src".to_string()));
    assert!(walk.is_finished());
    assert_eq!(walk.next_directory(), None);
    assert_eq!(walk.next_directory(), None);
}

#[test]
fn listing_hands_on_files_and_queues_directories() {
    let mut walk = TreeWalk::new("/src".to_string());
    let root = walk.next_directory().unwrap();
    let found = walk.visit(
        &root,
        Listing::Entries(vec![
            file("/src/a.c"),
            dir("/src/x"),
            Entry::Other { path: "/src/socket".to_string() },
            file("/src/b.c"),
            dir("/src/y"),
        ]),
    );
    assert_eq!(found.files, vec!["/src/a.c".to_string(), "/src/b.c".to_string()]);
    assert!(found.diagnostics.is_empty());
    assert_eq!(walk.next_directory(), Some("/src/y".to_string()));
    assert_eq!(walk.next_directory(), Some("/src/x".to_string()));
    assert_eq!(walk.next_directory(), None);
}

#[test]
fn walk_is_depth_first() {
    let mut walk = TreeWalk::new("/r".to_string());
    let mut order = Vec::new();
    while let Some(directory) = walk.next_directory() {
        let entries = match directory.as_str() {
            "/r" => vec![dir("/r/a"), dir("/r/b")],
            "/r/b" => vec![dir("/r/b/c"), file("/r/b/f.c")],
            "/r/b/c" => vec![dir("/r/b/c/d")],
            _ => Vec::new(),
        };
        walk.visit(&directory, Listing::Entries(entries));
        order.push(directory);
    }
    assert_eq!(order, vec!["/r", "/r/b", "/r/b/c", "/r/b/c/d", "/r/a"]);
}

#[test]
fn unreadable_directory_is_reported_and_siblings_go_on() {
    let mut walk = TreeWalk::new("/src".to_string());
    let root = walk.next_directory().unwrap();
    walk.visit(&root, Listing::Entries(vec![dir("/src/ok"), dir("/src/locked")]));
    let locked = walk.next_directory().unwrap();
    assert_eq!(locked, "/src/locked");
    let found = walk.visit(&locked, Listing::Unreadable { reason: "permission denied".to_string() });
    assert!(found.files.is_empty());
    assert_eq!(
        found.diagnostics,
        vec![Diagnostic::UnreadableDirectory {
            directory: "/src/locked".to_string(),
            reason: "permission denied".to_string(),
        }]
    );
    assert_eq!(
        found.diagnostics[0].message(),
        "cannot read directory /src/locked: permission denied"
    );
    assert_eq!(walk.next_directory(), Some("/src/ok".to_string()));
}

#[test]
fn unreadable_entry_is_reported_and_the_rest_is_kept() {
    let mut walk = TreeWalk::new("/src".to_string());
    let root = walk.next_directory().unwrap();
    let found = walk.visit(
        &root,
        Listing::Entries(vec![
            file("/src/a.c"),
            Entry::Unreadable { reason: "stale handle".to_string() },
            dir("/src/x"),
        ]),
    );
    assert_eq!(found.files, vec!["/src/a.c".to_string()]);
    assert_eq!(
        found.diagnostics,
        vec![Diagnostic::UnreadableEntry {
            directory: "/src".to_string(),
            reason: "stale handle".to_string(),
        }]
    );
    assert_eq!(found.diagnostics[0].message(), "cannot read an entry of /src: stale handle");
    assert_eq!(walk.next_directory(), Some("/src/x".to_string()));
}

#[test]
fn empty_listing_changes_nothing() {
    let mut walk = TreeWalk::new("/src".to_string());
    let root = walk.next_directory().unwrap();
    let found = walk.visit(&root, Listing::Entries(Vec::new()));
    assert!(found.files.is_empty());
    assert!(found.diagnostics.is_empty());
    assert!(walk.is_finished());
}

#[test]
fn finished_walk_has_handed_on_every_file_beneath_the_root() {
    let answer = |directory: &str| match directory {
        "/r" => Listing::Entries(vec![file("/r/top.c"), dir("/r/a"), dir("/r/b"), dir("/r/no")]),
        "/r/a" => Listing::Entries(vec![dir("/r/a/deep"), file("/r/a/one.c")]),
        "/r/a/deep" => Listing::Entries(vec![file("/r/a/deep/two.c"), file("/r/a/deep/three.h")]),
        "/r/b" => Listing::Entries(Vec::new()),
        _ => Listing::Unreadable { reason: "denied".to_string() },
    };
    let mut walk = TreeWalk::new("/r".to_string());
    let mut files = Vec::new();
    let mut diagnostics = Vec::new();
    let mut rounds = 0;
    while let Some(directory) = walk.next_directory() {
        let found = walk.visit(&directory, answer(&directory));
        files.extend(found.files);
        diagnostics.extend(found.diagnostics);
        rounds += 1;
    }
    assert_eq!(rounds, 5);
    files.sort();
    assert_eq!(
        files,
        vec!["/r/a/deep/three.h", "/r/a/deep/two.c", "/r/a/one.c", "/r/top.c"]
    );
    assert_eq!(
        diagnostics,
        vec![Diagnostic::UnreadableDirectory {
            directory: "/r/no".to_string(),
            reason: "denied".to_string(),
        }]
    );
}
