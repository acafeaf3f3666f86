use lmake::buffer::{inject_basefill, inject_comment_header, inject_preloads, remove_blank_lines, remove_comments};
use lmake::preload::{create_preload_name, create_preload_string, module_file_path, PreloadNames};

#[test]
fn header_is_prepended() {
    let mut buffer = String::from("x");
    inject_comment_header(&mut buffer);
    assert_eq!(
        buffer,
        "\n-- built with lmake (0.1.0) <https://github.com/snsvrno/lmake-rs>\n-- a tool for compiling lua libraries from multiple source files and dependencies\n\nx"
    );
}

#[test]
fn preloads_each_on_own_line() {
    let mut buffer = String::from("h");
    inject_preloads(&mut buffer, &vec!["a".to_string(), "b".to_string()]);
    assert_eq!(buffer, "h\na\nb");
}

#[test]
fn basefill_on_own_line() {
    let mut buffer = String::from("h");
    inject_basefill(&mut buffer, "base");
    assert_eq!(buffer, "h\nbase");
}

#[test]
fn comments_removed_to_end_of_line() {
    let mut buffer = String::from("a = 1 -- one\n-- whole\nb = 2\n");
    remove_comments(&mut buffer);
    assert_eq!(buffer, "a = 1 \n\nb = 2\n");
}

#[test]
fn single_dash_is_kept() {
    let mut buffer = String::from("a = 3 - 1\n");
    remove_comments(&mut buffer);
    assert_eq!(buffer, "a = 3 - 1\n");
}

#[test]
fn blank_lines_dropped() {
    let mut buffer = String::from("a\n\n   \n\t\nb\n\u{b}\u{c}\n c ");
    remove_blank_lines(&mut buffer);
    assert_eq!(buffer, "a\nb\n c ");
}

#[test]
fn blank_lines_of_empty_buffer() {
    let mut buffer = String::new();
    remove_blank_lines(&mut buffer);
    assert_eq!(buffer, "");
}

#[test]
fn preload_string_wraps_source() {
    assert_eq!(
        create_preload_string("return 1", "lib-01"),
        "package.preload['lib-01'] = (function(...)\nreturn 1\nend)\n"
    );
}

#[test]
fn preload_name_has_padded_serial() {
    assert_eq!(create_preload_name("mylib", 42), "mylib-000000000000000000000042");
    assert_eq!(create_preload_name("x", u64::MAX), "x-000018446744073709551615");
}

#[test]
fn preload_names_count_up() {
    let mut names = PreloadNames::new();
    assert_eq!(names.issue("a"), Some("a-000000000000000000000000".to_string()));
    assert_eq!(names.issue("b"), Some("b-000000000000000000000001".to_string()));
    assert_eq!(names.next_serial(), 2);
}

#[test]
fn module_file_path_nests_folders() {
    assert_eq!(module_file_path("src.util.strings"), "src/util/strings.lua");
    assert_eq!(module_file_path("main"), "main.lua");
}
