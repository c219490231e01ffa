use fileassetbuilder::entry::{extension_of, join_segments};
use fileassetbuilder::input::parse_bracket_input;
use fileassetbuilder::text::{split_words, trim, white_space};

#[test]
fn trim_removes_unicode_white_space() {
    assert_eq!(trim("  x y \t\n"), "x y");
    assert_eq!(trim("\u{3000}a\u{a0}"), "a");
    assert_eq!(trim("   "), "");
    assert_eq!(trim(""), "");
    assert!(white_space('\u{2028}'));
    assert!(!white_space('x'));
}

#[test]
fn words_split_on_runs_of_white_space() {
    assert_eq!(split_words("  a bb\t c  "), vec!["a", "bb", "c"]);
    assert!(split_words(" \t ").is_empty());
    assert_eq!(split_words("one"), vec!["one"]);
}

#[test]
fn bracket_list_gives_each_path() {
    assert_eq!(
        parse_bracket_input("[C:\\project1 /home/p2   p3]"),
        Ok(vec!["C:\\project1".to_string(), "/home/p2".to_string(), "p3".to_string()])
    );
}

#[test]
fn path_without_brackets_is_one_input() {
    assert_eq!(parse_bracket_input("  /tmp/x y  "), Ok(vec!["/tmp/x y".to_string()]));
    assert_eq!(parse_bracket_input("[abc"), Ok(vec!["[abc".to_string()]));
}

#[test]
fn empty_bracket_list_is_an_error() {
    assert_eq!(parse_bracket_input("[]"), Err("Empty input list".to_string()));
    assert_eq!(parse_bracket_input(" [  ] "), Err("Empty input list".to_string()));
    assert_eq!(parse_bracket_input("["), Ok(vec!["[".to_string()]));
}

#[test]
fn extension_is_the_last_dot_segment() {
    assert_eq!(extension_of("archive.tar.gz"), ".gz");
    assert_eq!(extension_of("A.PNG"), ".PNG");
    assert_eq!(extension_of("noext"), "");
    assert_eq!(extension_of(".bashrc"), "");
    assert_eq!(extension_of(".config.toml"), ".toml");
    assert_eq!(extension_of("file."), ".");
    assert_eq!(extension_of(".."), "");
    assert_eq!(extension_of(""), "");
}

#[test]
fn segments_join_with_forward_slashes() {
    let segs = vec!["a".to_string(), "b".to_string(), "c.txt".to_string()];
    assert_eq!(join_segments(&segs), "a/b/c.txt");
    assert_eq!(join_segments(&vec![]), "");
}
