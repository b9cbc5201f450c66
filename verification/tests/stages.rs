use compile_commands::text::{chars_of, contains};
use compile_commands::{
    cleanup_line, cleanup_lines, find_all_lines, line_matches, tokenize_line, tokenize_lines,
};

fn words(items: &[&str]) -> Vec<String> {
    items.iter().map(|item| item.to_string()).collect()
}

#[test]
fn filter_matches_whatever_the_case() {
    assert!(line_matches("  CL.EXE /c main.cpp", "cl.exe"));
    assert!(line_matches("  cl.exe /c main.cpp", "CL.exe"));
    assert!(line_matches("C:\\Tools\\Cl.Exe /c main.cpp", "cl.exe"));
    assert!(!line_matches("link.exe /out:a.exe main.obj", "cl.exe"));
    assert!(!line_matches("", "cl.exe"));
}

#[test]
fn filter_matches_inside_a_path_or_a_flag() {
    assert!(line_matches("link.exe /libpath:tools/cl.exe.d main.obj", "cl.exe"));
    assert!(line_matches("clang-cl.exe /c main.cpp", "cl.exe"));
}

#[test]
fn filter_with_empty_name_keeps_every_line() {
    assert!(line_matches("anything", ""));
    assert!(line_matches("", ""));
}

#[test]
fn filter_keeps_the_order_of_the_lines() {
    let lines = words(&["cl.exe a.c", "note: x", "CL.exe b.c", "", "cl.ex c.c", "xcl.exey d.c"]);
    assert_eq!(
        find_all_lines(&lines, "cl.exe"),
        words(&["cl.exe a.c", "CL.exe b.c", "xcl.exey d.c"])
    );
    assert_eq!(find_all_lines(&Vec::new(), "cl.exe"), Vec::<String>::new());
}

#[test]
fn search_finds_at_start_middle_and_end() {
    let text = chars_of("abcabd");
    assert!(contains(&text, &chars_of("abc")));
    assert!(contains(&text, &chars_of("cab")));
    assert!(contains(&text, &chars_of("abd")));
    assert!(contains(&text, &chars_of("abcabd")));
    assert!(contains(&text, &chars_of("")));
    assert!(!contains(&text, &chars_of("abe")));
    assert!(!contains(&text, &chars_of("abcabde")));
    assert!(!contains(&chars_of(""), &chars_of("a")));
    assert!(contains(&chars_of(""), &chars_of("")));
}

#[test]
fn chars_are_characters_not_bytes() {
    let chars = chars_of("h\u{e9}llo w\u{f6}rld");
    assert_eq!(chars.len(), 11);
    assert_eq!(chars[1], '\u{e9}');
    assert_eq!(tokenize_line("h\u{e9}llo w\u{f6}rld"), words(&["h\u{e9}llo", "w\u{f6}rld"]));
}

#[test]
fn sanitizer_removes_every_quote_and_nothing_else() {
    assert_eq!(cleanup_line("\"cl.exe\" /c \"my file.cpp\""), "cl.exe /c my file.cpp");
    assert_eq!(cleanup_line("\"\"\""), "");
    assert_eq!(cleanup_line(""), "");
    assert_eq!(cleanup_line("no quotes 'here'"), "no quotes 'here'");
    assert_eq!(cleanup_line("a\"\"b\"c"), "abc");
}

#[test]
fn sanitizer_works_line_by_line() {
    assert_eq!(
        cleanup_lines(&words(&["\"a\" b", "", "c\"d"])),
        words(&["a b", "", "cd"])
    );
}

#[test]
fn tokenizer_splits_on_runs_of_white_space() {
    assert_eq!(
        tokenize_line("  cl.exe   /c\t/Ox \r\n main.cpp  "),
        words(&["cl.exe", "/c", "/Ox", "main.cpp"])
    );
    assert_eq!(tokenize_line("one"), words(&["one"]));
    assert_eq!(tokenize_line("a\u{a0}b\u{2003}c\u{3000}d"), words(&["a", "b", "c", "d"]));
}

#[test]
fn tokenizer_gives_nothing_for_blank_lines() {
    assert_eq!(tokenize_line(""), Vec::<String>::new());
    assert_eq!(tokenize_line("   \t  "), Vec::<String>::new());
}

#[test]
fn tokenizer_works_line_by_line() {
    assert_eq!(
        tokenize_lines(&words(&["a b", "", " c "])),
        vec![words(&["a", "b"]), Vec::new(), words(&["c"])]
    );
}

#[test]
fn tokens_are_never_empty_and_hold_no_white_space() {
    for line in ["  a  b ", "\tx\ty\t", "p q\u{2028}r", " ", "word"] {
        for token in tokenize_line(line) {
            assert!(!token.is_empty());
            assert!(!token.chars().any(|c| c.is_whitespace()));
        }
    }
}

#[test]
fn ascii_white_space_is_the_blank_and_tab_to_carriage_return() {
    assert_eq!(
        tokenize_line("a b\tc\nd\u{b}e\u{c}f\rg"),
        words(&["a", "b", "c", "d", "e", "f", "g"])
    );
    assert_eq!(
        tokenize_line("a\u{1c}b\u{1f}c\u{8}d\u{e}e\u{0}f"),
        words(&["a\u{1c}b\u{1f}c\u{8}d\u{e}e\u{0}f"])
    );
    for code in 0u32..128 {
        let c = char::from_u32(code).unwrap();
        let line = format!("x{}y", c);
        let split = c == ' ' || (9..=13).contains(&code);
        assert_eq!(tokenize_line(&line).len(), if split { 2 } else { 1 });
    }
}

#[test]
fn joining_tokens_with_blanks_and_splitting_again_gives_them_back() {
    for line in ["  cl.exe   /c\t/Ox \r\n main.cpp  ", "one", "", " \t ", "a\u{a0}b c"] {
        let tokens = tokenize_line(line);
        assert_eq!(tokenize_line(&tokens.join(" ")), tokens);
    }
}
