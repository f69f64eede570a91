use typed_path::common::Utf8Encoding;
use typed_path::unix::Utf8UnixEncoding;

#[test]
fn push_should_replace_current_path_with_provided_path_if_provided_path_is_absolute() {
    // Empty current path will just become the provided path
    let mut current_path = String::new();
    Utf8UnixEncoding::push(&mut current_path, "/abc");
    assert_eq!(current_path, "/abc");

    // Non-empty relative current path will be replaced with the provided path
    let mut current_path = String::from("some/path");
    Utf8UnixEncoding::push(&mut current_path, "/abc");
    assert_eq!(current_path, "/abc");

    // Non-empty absolute current path will be replaced with the provided path
    let mut current_path = String::from("/some/path/");
    Utf8UnixEncoding::push(&mut current_path, "/abc");
    assert_eq!(current_path, "/abc");
}

#[test]
fn push_should_append_path_to_current_path_with_a_separator_if_provided_path_is_relative() {
    // Empty current path will just become the provided path
    let mut current_path = String::new();
    Utf8UnixEncoding::push(&mut current_path, "abc");
    assert_eq!(current_path, "abc");

    // Non-empty current path will have provided path appended
    let mut current_path = String::from("some/path");
    Utf8UnixEncoding::push(&mut current_path, "abc");
    assert_eq!(current_path, "some/path/abc");

    // Non-empty current path ending in separator will have provided path appended without sep
    let mut current_path = String::from("some/path/");
    Utf8UnixEncoding::push(&mut current_path, "abc");
    assert_eq!(current_path, "some/path/abc");
}

#[test]
fn push_of_an_empty_path_changes_nothing() {
    let mut current_path = String::from("some/path");
    Utf8UnixEncoding::push(&mut current_path, "");
    assert_eq!(current_path, "some/path");
    assert_eq!(Utf8UnixEncoding::label(), "unix");
}

#[test]
fn push_should_keep_non_ascii_characters() {
    let mut current_path = String::from("dossier/é");
    Utf8UnixEncoding::push(&mut current_path, "ñ.txt");
    assert_eq!(current_path, "dossier/é/ñ.txt");
}
