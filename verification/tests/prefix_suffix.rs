use typed_path::common::StripPrefixError;
use typed_path::unix::UnixPath;
use typed_path::windows::WindowsPath;

#[test]
fn strip_prefix_follows_the_documented_examples() {
    let path = UnixPath::new(b"/test/haha/foo.txt");
    assert_eq!(path.strip_prefix(UnixPath::new(b"/")).unwrap().as_bytes(), b"test/haha/foo.txt");
    assert_eq!(path.strip_prefix(UnixPath::new(b"/test")).unwrap().as_bytes(), b"haha/foo.txt");
    assert_eq!(path.strip_prefix(UnixPath::new(b"/test/")).unwrap().as_bytes(), b"haha/foo.txt");
    assert_eq!(path.strip_prefix(UnixPath::new(b"/test/haha/foo.txt")).unwrap().as_bytes(), b"");
    assert_eq!(path.strip_prefix(UnixPath::new(b"/test/haha/foo.txt/")).unwrap().as_bytes(), b"");
    assert!(path.strip_prefix(UnixPath::new(b"test")).is_err());
    assert!(path.strip_prefix(UnixPath::new(b"/haha")).is_err());
}

#[test]
fn strip_prefix_error_describes_itself() {
    let err: StripPrefixError = match UnixPath::new(b"/a").strip_prefix(UnixPath::new(b"/b")) {
        Err(e) => e,
        Ok(_) => panic!("/b is no prefix of /a"),
    };
    assert_eq!(err.to_string(), "prefix not found");
}

#[test]
fn strip_prefix_of_nothing_leaves_the_path() {
    let path = UnixPath::new(b"./a/b");
    assert_eq!(path.strip_prefix(UnixPath::new(b"")).unwrap().as_bytes(), b"./a/b");
    assert_eq!(path.strip_prefix(UnixPath::new(b".")).unwrap().as_bytes(), b"a/b");
}

#[test]
fn strip_prefix_keeps_trailing_separators_of_the_rest() {
    let path = UnixPath::new(b"/a/b//");
    assert_eq!(path.strip_prefix(UnixPath::new(b"/a")).unwrap().as_bytes(), b"b//");
}

#[test]
fn starts_with_follows_the_documented_examples() {
    let path = UnixPath::new(b"/etc/passwd");
    assert!(path.starts_with(UnixPath::new(b"/etc")));
    assert!(path.starts_with(UnixPath::new(b"/etc/")));
    assert!(path.starts_with(UnixPath::new(b"/etc/passwd")));
    assert!(path.starts_with(UnixPath::new(b"/etc/passwd/")));
    assert!(path.starts_with(UnixPath::new(b"/etc/passwd///")));
    assert!(!path.starts_with(UnixPath::new(b"/e")));
    assert!(!path.starts_with(UnixPath::new(b"/etc/passwd.txt")));
    assert!(!UnixPath::new(b"/etc/foo.rs").starts_with(UnixPath::new(b"/etc/foo")));
}

#[test]
fn ends_with_follows_the_documented_examples() {
    let path = UnixPath::new(b"/etc/resolv.conf");
    assert!(path.ends_with(UnixPath::new(b"resolv.conf")));
    assert!(path.ends_with(UnixPath::new(b"etc/resolv.conf")));
    assert!(path.ends_with(UnixPath::new(b"/etc/resolv.conf")));
    assert!(!path.ends_with(UnixPath::new(b"/resolv.conf")));
    assert!(!path.ends_with(UnixPath::new(b"conf")));
}

#[test]
fn a_path_starts_and_ends_with_itself() {
    for bytes in [&b"/a/b"[..], b"a/./b/", b"", b"../x"] {
        let path = UnixPath::new(bytes);
        assert!(path.starts_with(UnixPath::new(bytes)));
        assert!(path.ends_with(UnixPath::new(bytes)));
    }
    for bytes in [&br"C:\a\b"[..], br"\\server\share\x", br"\\?\C:\y", b""] {
        let path = WindowsPath::new(bytes);
        assert!(path.starts_with(WindowsPath::new(bytes)));
        assert!(path.ends_with(WindowsPath::new(bytes)));
    }
}

#[test]
fn windows_components_compare_by_meaning() {
    let path = WindowsPath::new(br"\\server\share\dir\file.txt");
    assert!(path.starts_with(WindowsPath::new(b"//server/share")));
    assert_eq!(
        path.strip_prefix(WindowsPath::new(b"//server/share/")).unwrap().as_bytes(),
        br"dir\file.txt"
    );
    assert!(WindowsPath::new(br"C:\a").starts_with(WindowsPath::new(b"C:/")));
    assert!(!WindowsPath::new(br"C:\a").starts_with(WindowsPath::new(br"D:\")));
    assert!(!WindowsPath::new(br"C:\a").starts_with(WindowsPath::new(br"\\?\C:\")));
    assert!(WindowsPath::new(br"C:\a\b").ends_with(WindowsPath::new(br"\a\b")));
    assert!(WindowsPath::new(br"C:\a\b").ends_with(WindowsPath::new(b"a/b")));
}
