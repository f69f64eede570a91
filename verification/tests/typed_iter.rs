use typed_path::typed::{TypedPath, Utf8TypedPath, Utf8TypedPathBuf};
use typed_path::unix::{UnixEncoding, UnixPath, Utf8UnixPathBuf};
use typed_path::windows::{Utf8WindowsPathBuf, WindowsEncoding, WindowsPath};

#[test]
fn typed_iter_as_path_follows_the_documented_example() {
    let mut iter = TypedPath::new(b"/tmp/foo/bar.txt").iter();
    iter.next();
    iter.next();
    let rest = iter.as_path();
    assert_eq!(rest.as_bytes(), b"foo/bar.txt");
    assert!(rest.is_unix());
}

#[test]
fn typed_iter_reads_the_rest_again() {
    let mut iter = TypedPath::new(br"C:\a\b").iter();
    assert_eq!(iter.next(), Some(&b"C:"[..]));
    assert_eq!(iter.next(), Some(&br"\"[..]));
    let rest = iter.as_path();
    assert_eq!(rest.as_bytes(), br"a\b");
    assert!(rest.is_unix());
    assert_eq!(iter.next_back(), Some(&b"b"[..]));
    assert_eq!(iter.next(), Some(&b"a"[..]));
    assert_eq!(iter.next(), None);
}

#[test]
fn typed_ancestors_walk_up_in_the_same_encoding() {
    let path = TypedPath::new(br"\\server\share\a\b");
    let mut ancestors = path.ancestors();
    let first = ancestors.next().unwrap();
    assert!(first.is_windows());
    assert_eq!(first.as_bytes(), br"\\server\share\a\b");
    assert_eq!(ancestors.next().unwrap().as_bytes(), br"\\server\share\a");
    assert_eq!(ancestors.next().unwrap().as_bytes(), br"\\server\share\");
    assert!(ancestors.next().is_none());
    assert!(TypedPath::new(b"/").parent().is_none());
    assert_eq!(TypedPath::new(b"/a").parent().unwrap().as_bytes(), b"/");
}

#[test]
fn utf8_typed_iter_to_path_follows_the_documented_example() {
    let mut iter = Utf8TypedPath::new("/tmp/foo/bar.txt").iter();
    iter.next();
    iter.next();
    let rest = iter.to_path();
    assert_eq!(rest.as_str(), "foo/bar.txt");
    assert!(rest.is_unix());
    assert_eq!(iter.as_str(), "foo/bar.txt");
}

#[test]
fn utf8_typed_iter_and_ancestors_keep_the_encoding() {
    let path = Utf8TypedPath::new(r"C:\ü\ß");
    assert!(path.is_windows());
    let mut iter = path.iter();
    assert_eq!(iter.next(), Some("C:"));
    assert_eq!(iter.next_back(), Some("ß"));
    let rest = iter.to_path();
    assert!(rest.is_windows());
    assert_eq!(rest.as_str(), r"\ü");

    let mut ancestors = path.ancestors();
    assert_eq!(ancestors.next().unwrap().as_str(), r"C:\ü\ß");
    let up = ancestors.next().unwrap();
    assert!(up.is_windows());
    assert_eq!(up.as_str(), r"C:\ü");
    assert_eq!(ancestors.next().unwrap().as_str(), r"C:\");
    assert!(ancestors.next().is_none());
    assert_eq!(path.parent().unwrap().as_str(), r"C:\ü");
}

#[test]
fn byte_paths_convert_between_encodings() {
    let unix = UnixPath::new(b"/tmp/foo.txt");
    assert_eq!(unix.with_encoding::<WindowsEncoding>().as_bytes(), br"\tmp\foo.txt");
    assert_eq!(unix.with_windows_encoding().as_bytes(), br"\tmp\foo.txt");
    let windows = WindowsPath::new(br"C:\tmp\foo.txt");
    assert_eq!(windows.with_encoding::<UnixEncoding>().as_bytes(), b"/tmp/foo.txt");
    assert_eq!(windows.with_unix_encoding().as_bytes(), b"/tmp/foo.txt");
    assert_eq!(windows.with_windows_encoding().as_bytes(), br"C:\tmp\foo.txt");
    assert!(unix.has_unix_encoding());
    assert!(!unix.has_windows_encoding());
    assert!(windows.has_windows_encoding());
    assert!(!windows.has_unix_encoding());
}

#[test]
fn utf8_typed_path_bufs_convert_to_their_encoding_only() {
    let unix = Utf8UnixPathBuf::try_from(Utf8TypedPathBuf::from_str("/a/b")).ok().unwrap();
    assert_eq!(unix.as_str(), "/a/b");
    assert!(Utf8WindowsPathBuf::try_from(Utf8TypedPathBuf::from_str("/a/b")).is_err());
    let win = Utf8WindowsPathBuf::try_from(Utf8TypedPathBuf::from_str(r"C:\a")).ok().unwrap();
    assert_eq!(win.as_str(), r"C:\a");
    let back = Utf8UnixPathBuf::try_from(Utf8TypedPathBuf::from_str(r"C:\a")).err().unwrap();
    assert!(back.is_windows());
}
