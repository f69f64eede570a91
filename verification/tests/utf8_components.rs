use typed_path::common::{ComponentKind, Utf8Component, Utf8Path};
use typed_path::unix::{UnixPath, Utf8UnixEncoding, Utf8UnixPath};
use typed_path::windows::{Utf8WindowsEncoding, Utf8WindowsPath, WindowsPath};

fn collect<'a, T: typed_path::common::Utf8Encoding>(path: Utf8Path<'a, T>) -> Vec<&'a str> {
    let mut it = path.iter();
    let mut out = Vec::new();
    while let Some(c) = it.next() {
        out.push(c);
    }
    out
}

#[test]
fn utf8_windows_path_components_follow_the_readme() {
    let comps = collect(Utf8WindowsPath::new(r"C:\path\to\file.txt"));
    assert_eq!(comps, vec!["C:", r"\", "path", "to", "file.txt"]);
}

#[test]
fn utf8_components_keep_non_ascii_names_whole() {
    let comps = collect(Utf8UnixPath::new("/héllo/wörld/日本"));
    assert_eq!(comps, vec!["/", "héllo", "wörld", "日本"]);
    let comps = collect(Utf8WindowsPath::new(r"\\sérver\shäre\ñ"));
    assert_eq!(comps, vec![r"\\sérver\shäre", r"\", "ñ"]);
}

#[test]
fn utf8_iter_runs_from_both_ends_and_reports_what_is_left() {
    let mut it = Utf8UnixPath::new("/tmp/foo/bar.txt").iter();
    assert_eq!(it.next(), Some("/"));
    assert_eq!(it.next(), Some("tmp"));
    assert_eq!(it.as_path().as_str(), "foo/bar.txt");
    assert_eq!(it.next_back(), Some("bar.txt"));
    assert_eq!(it.as_path().as_str(), "foo");
    assert_eq!(it.next_back(), Some("foo"));
    assert_eq!(it.as_path().as_str(), "");
    assert_eq!(it.next(), None);
    assert_eq!(it.next_back(), None);
}

#[test]
fn utf8_parent_file_name_and_ancestors() {
    let path = Utf8UnixPath::new("/héllo/wörld");
    assert_eq!(path.parent().unwrap().as_str(), "/héllo");
    assert_eq!(path.file_name(), Some("wörld"));
    assert_eq!(Utf8UnixPath::new("/").file_name(), None);
    assert_eq!(Utf8UnixPath::new("a/..").file_name(), None);

    let mut ancestors = Utf8UnixPath::new("/foo/bar").ancestors();
    assert_eq!(ancestors.next().unwrap().as_str(), "/foo/bar");
    assert_eq!(ancestors.next().unwrap().as_str(), "/foo");
    assert_eq!(ancestors.next().unwrap().as_str(), "/");
    assert!(ancestors.next().is_none());

    let mut ancestors = Utf8UnixPath::new("../foo/bar").ancestors();
    assert_eq!(ancestors.next().unwrap().as_str(), "../foo/bar");
    assert_eq!(ancestors.next().unwrap().as_str(), "../foo");
    assert_eq!(ancestors.next().unwrap().as_str(), "..");
    assert_eq!(ancestors.next().unwrap().as_str(), "");
    assert!(ancestors.next().is_none());
}

#[test]
fn with_encoding_follows_the_readme() {
    let unix_path = Utf8UnixPath::new("/tmp/foo.txt");
    let windows_path = unix_path.with_encoding::<Utf8WindowsEncoding>();
    assert_eq!(windows_path.as_str(), r"\tmp\foo.txt");

    let windows_path = Utf8WindowsPath::new(r"C:\tmp\foo.txt");
    let unix_path = windows_path.with_encoding::<Utf8UnixEncoding>();
    assert_eq!(unix_path.as_str(), "/tmp/foo.txt");

    let path = Utf8WindowsPath::new(r"C:\tmp\foo.txt");
    assert_eq!(path.with_encoding::<Utf8WindowsEncoding>().as_str(), r"C:\tmp\foo.txt");
}

#[test]
fn with_unix_and_windows_encoding_are_shortcuts() {
    // a `.` inside a Unix path is no component of it
    assert_eq!(Utf8UnixPath::new("a/./b/../c").with_windows_encoding().as_str(), r"a\b\..\c");
    assert_eq!(Utf8WindowsPath::new(r"\\server\share\x").with_unix_encoding().as_str(), "/x");
    assert_eq!(Utf8UnixPath::new("/a").with_unix_encoding().as_str(), "/a");
}

#[test]
fn utf8_normalize_follows_the_readme() {
    assert_eq!(
        Utf8UnixPath::new("foo/bar//baz/./asdf/quux/..").normalize().as_str(),
        "foo/bar/baz/asdf"
    );
    assert_eq!(Utf8UnixPath::new("/../foo").normalize().as_str(), "/foo");
    assert_eq!(Utf8UnixPath::new("../foo/..").normalize().as_str(), "");
    assert_eq!(Utf8UnixPath::new("foo/../../bar").normalize().as_str(), "bar");
    assert_eq!(Utf8WindowsPath::new(r"C:\a\..\b\.\c").normalize().as_str(), r"C:\b\c");
}

#[test]
fn byte_normalize_resolves_dots() {
    assert_eq!(UnixPath::new(b"foo/bar//baz/./asdf/quux/..").normalize().as_bytes(), b"foo/bar/baz/asdf");
    assert_eq!(UnixPath::new(b"/../foo").normalize().as_bytes(), b"/foo");
    assert_eq!(UnixPath::new(b"../foo/..").normalize().as_bytes(), b"");
    assert_eq!(UnixPath::new(b"foo/../../bar").normalize().as_bytes(), b"bar");
    assert_eq!(WindowsPath::new(br"C:\a\..\b\.\c").normalize().as_bytes(), br"C:\b\c");
    assert_eq!(WindowsPath::new(br"C:/a/../b").normalize().as_bytes(), br"C:\b");
}

#[test]
fn utf8_components_tell_roots_and_names_apart() {
    let path = Utf8UnixPath::new("/my/../path/./here.txt");
    let mut comps = path.components();
    let mut seen = Vec::new();
    while let Some(c) = comps.next() {
        seen.push((c.as_str(), c.is_root(), c.is_normal(), c.len(), c.is_empty()));
    }
    assert_eq!(
        seen,
        vec![
            ("/", true, false, 1, false),
            ("my", false, true, 2, false),
            ("..", false, false, 2, false),
            ("path", false, true, 4, false),
            ("here.txt", false, true, 8, false),
        ]
    );

    let mut comps = Utf8WindowsPath::new(r"C:\wörld").components();
    let prefix = comps.next().unwrap();
    assert_eq!(prefix.kind(), ComponentKind::Prefix);
    assert!(!prefix.is_root());
    assert!(comps.next().unwrap().is_root());
    let last = comps.next_back().unwrap();
    assert_eq!(last.as_str(), "wörld");
    assert_eq!(last.len(), 6);
    assert!(comps.next().is_none());

    let mut comps = Utf8WindowsPath::new(r"\\server\share\x").components();
    let prefix = comps.next().unwrap();
    assert_eq!(prefix.as_str(), r"\\server\share");
    assert!(prefix.is_root());
}

#[test]
fn utf8_components_encode_to_the_byte_components() {
    let text = "/héllo/./wörld/..";
    let mut utf8 = Utf8UnixPath::new(text).iter();
    let mut bytes = UnixPath::new(text.as_bytes()).iter();
    loop {
        match (utf8.next(), bytes.next()) {
            (Some(a), Some(b)) => assert_eq!(a.as_bytes(), b),
            (None, None) => break,
            other => panic!("iterators disagree: {:?}", other),
        }
    }
}

#[test]
fn utf8_paths_normalize_and_convert_as_their_bytes_do() {
    let text = "/ä/./b/../ç/";
    assert_eq!(
        Utf8UnixPath::new(text).normalize().as_str().as_bytes(),
        UnixPath::new(text.as_bytes()).normalize().as_bytes()
    );
    let text = r"\\?\C:\ä\.\b\..\ç";
    assert_eq!(
        Utf8WindowsPath::new(text).normalize().as_str().as_bytes(),
        WindowsPath::new(text.as_bytes()).normalize().as_bytes()
    );
    let text = r"C:\tmp\fö.txt";
    assert_eq!(
        Utf8WindowsPath::new(text).with_unix_encoding().as_str().as_bytes(),
        WindowsPath::new(text.as_bytes()).with_unix_encoding().as_bytes()
    );
}
