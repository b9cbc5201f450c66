use compile_commands::path::PathParts;
use compile_commands::{build_file_map, DirectoryIndex, Resolution};

fn words(items: &[&str]) -> Vec<String> {
    items.iter().map(|item| item.to_string()).collect()
}

#[test]
fn distinct_names_all_resolve() {
    let paths = ["/src/app/main.cpp", "/src/app/util.cpp", "/src/lib/io.h", "/src/lib/deep/x.c"];
    let index = build_file_map(&words(&paths));
    assert_eq!(index.resolve("main.cpp"), Resolution::Unique("/src/app".to_string()));
    assert_eq!(index.resolve("util.cpp"), Resolution::Unique("/src/app".to_string()));
    assert_eq!(index.resolve("io.h"), Resolution::Unique("/src/lib".to_string()));
    assert_eq!(index.resolve("x.c"), Resolution::Unique("/src/lib/deep".to_string()));
}

#[test]
fn shared_name_is_ambiguous_and_never_overwritten() {
    let index = build_file_map(&words(&["/src/a/util.cpp", "/src/b/util.cpp"]));
    assert_eq!(index.resolve("util.cpp"), Resolution::Ambiguous);
    let thrice = build_file_map(&words(&["/a/u.c", "/b/u.c", "/c/u.c", "/d/v.c"]));
    assert_eq!(thrice.resolve("u.c"), Resolution::Ambiguous);
    assert_eq!(thrice.resolve("v.c"), Resolution::Unique("/d".to_string()));
}

#[test]
fn unseen_name_is_unseen() {
    let index = build_file_map(&words(&["/src/app/main.cpp"]));
    assert_eq!(index.resolve("other.cpp"), Resolution::Unseen);
    assert_eq!(index.resolve("MAIN.CPP"), Resolution::Unseen);
    assert_eq!(DirectoryIndex::new().resolve("main.cpp"), Resolution::Unseen);
}

#[test]
fn order_of_observation_does_not_matter() {
    let forward = build_file_map(&words(&["/a/x.c", "/b/y.c", "/c/x.c", "/d/z.c"]));
    let backward = build_file_map(&words(&["/d/z.c", "/c/x.c", "/b/y.c", "/a/x.c"]));
    for name in ["x.c", "y.c", "z.c", "w.c"] {
        assert_eq!(forward.resolve(name), backward.resolve(name));
    }
    assert_eq!(forward.resolve("x.c"), Resolution::Ambiguous);
    assert_eq!(forward.resolve("y.c"), Resolution::Unique("/b".to_string()));
}

#[test]
fn files_without_extension_are_left_out() {
    let mut index = DirectoryIndex::new();
    assert!(!index.observe("/src/Makefile"));
    assert!(!index.observe("/src/.gitignore"));
    assert!(!index.observe("/src/trailing."));
    assert!(index.observe("/src/main.c"));
    assert_eq!(index.resolve("Makefile"), Resolution::Unseen);
    assert_eq!(index.resolve(".gitignore"), Resolution::Unseen);
    assert_eq!(index.resolve("trailing."), Resolution::Unseen);
    assert_eq!(index.resolve("main.c"), Resolution::Unique("/src".to_string()));
}

#[test]
fn path_without_directory_gives_its_name_no_directory() {
    let mut index = DirectoryIndex::new();
    assert!(index.observe("main.c"));
    assert_eq!(index.resolve("main.c"), Resolution::Unseen);
    assert!(!index.observe(""));
    assert!(!index.observe("/"));
    assert!(index.observe("./other.c"));
    assert_eq!(index.resolve("other.c"), Resolution::Unique(".".to_string()));
}

#[test]
fn path_without_directory_counts_towards_ambiguity() {
    let bare_first = build_file_map(&words(&["util.cpp", "/src/a/util.cpp"]));
    assert_eq!(bare_first.resolve("util.cpp"), Resolution::Ambiguous);
    let bare_last = build_file_map(&words(&["/src/a/util.cpp", "util.cpp"]));
    assert_eq!(bare_last.resolve("util.cpp"), Resolution::Ambiguous);
    let both_bare = build_file_map(&words(&["util.cpp", "util.cpp"]));
    assert_eq!(both_bare.resolve("util.cpp"), Resolution::Ambiguous);
    let among_others = build_file_map(&words(&["/x/a.c", "util.cpp", "/y/b.c", "/z/util.cpp"]));
    assert_eq!(among_others.resolve("util.cpp"), Resolution::Ambiguous);
    assert_eq!(among_others.resolve("a.c"), Resolution::Unique("/x".to_string()));
}

#[test]
fn root_directory_is_a_directory_like_any_other() {
    let index = build_file_map(&words(&["/top.c"]));
    assert_eq!(index.resolve("top.c"), Resolution::Unique("/".to_string()));
}

#[test]
fn record_takes_the_parts_as_given() {
    let mut index = DirectoryIndex::new();
    let parts = |name: &str, dir: &str| PathParts {
        file_name: Some(name.to_string()),
        parent: Some(dir.to_string()),
    };
    assert!(index.record(parts("a.c", "/one")));
    assert_eq!(index.resolve("a.c"), Resolution::Unique("/one".to_string()));
    assert!(index.record(parts("a.c", "/two")));
    assert_eq!(index.resolve("a.c"), Resolution::Ambiguous);
    assert!(!index.record(parts("b.", "/one")));
    assert!(!index.record(parts("b", "/one")));
    assert!(!index.record(parts("", "/one")));
    assert!(!index.record(PathParts { file_name: None, parent: Some("/one".to_string()) }));
    assert_eq!(index.resolve("b.c"), Resolution::Unseen);
    assert!(index.record(parts("b.c", "")));
    assert_eq!(index.resolve("b.c"), Resolution::Unseen);
    assert!(index.record(parts("b.c", "/one")));
    assert_eq!(index.resolve("b.c"), Resolution::Ambiguous);
    assert!(index.record(PathParts { file_name: Some("c.c".to_string()), parent: None }));
    assert_eq!(index.resolve("c.c"), Resolution::Unseen);
    assert!(index.record(PathParts { file_name: Some("c.c".to_string()), parent: None }));
    assert_eq!(index.resolve("c.c"), Resolution::Ambiguous);
    assert_eq!(index.resolve("a.c"), Resolution::Ambiguous);
}

#[test]
fn same_file_observed_twice_is_ambiguous() {
    let index = build_file_map(&words(&["/src/a.c", "/src/a.c"]));
    assert_eq!(index.resolve("a.c"), Resolution::Ambiguous);
}
