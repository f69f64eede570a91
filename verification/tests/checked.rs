use typed_path::common::{CheckedPathError, PathBuf};
use typed_path::unix::{UnixPath, UnixPathBuf, Utf8UnixPath};
use typed_path::windows::{Utf8WindowsPath, WindowsPath, WindowsPathBuf};

#[test]
fn push_checked_takes_relative_paths_that_stay_inside() {
    let mut buf: UnixPathBuf = PathBuf::from_bytes(b"/a");
    assert_eq!(buf.push_checked(UnixPath::new(b"b")), Ok(()));
    assert_eq!(buf.as_bytes(), b"/a/b");
    assert_eq!(buf.push_checked(UnixPath::new(b"c/../d")), Ok(()));
    assert_eq!(buf.as_bytes(), b"/a/b/c/../d");
}

#[test]
fn push_checked_refuses_roots_prefixes_escapes_and_bad_names() {
    let mut buf: UnixPathBuf = PathBuf::from_bytes(b"/a");
    assert_eq!(buf.push_checked(UnixPath::new(b"/etc")), Err(CheckedPathError::UnexpectedRoot));
    assert_eq!(buf.push_checked(UnixPath::new(b"../b")), Err(CheckedPathError::PathTraversalAttack));
    assert_eq!(
        buf.push_checked(UnixPath::new(b"b/../../c")),
        Err(CheckedPathError::PathTraversalAttack)
    );
    assert_eq!(buf.as_bytes(), b"/a");

    let mut win: WindowsPathBuf = PathBuf::from_bytes(br"C:\a");
    assert_eq!(win.push_checked(WindowsPath::new(b"C:b")), Err(CheckedPathError::UnexpectedPrefix));
    assert_eq!(win.push_checked(WindowsPath::new(br"\b")), Err(CheckedPathError::UnexpectedRoot));
    assert_eq!(win.push_checked(WindowsPath::new(b"a|b")), Err(CheckedPathError::InvalidFilename));
    assert_eq!(win.as_bytes(), br"C:\a");
    assert_eq!(win.push_checked(WindowsPath::new(br"b\.\c")), Ok(()));
    assert_eq!(win.as_bytes(), br"C:\a\b\.\c");
}

#[test]
fn join_checked_builds_a_new_path() {
    assert_eq!(UnixPath::new(b"/x").join_checked(UnixPath::new(b"y")).unwrap().as_bytes(), b"/x/y");
    assert!(UnixPath::new(b"/x").join_checked(UnixPath::new(b"..")).is_err());
    assert_eq!(Utf8UnixPath::new("/ä").join_checked(Utf8UnixPath::new("ö")).unwrap().as_str(), "/ä/ö");
    assert!(Utf8WindowsPath::new(r"C:\").join_checked(Utf8WindowsPath::new(r"D:\x")).is_err());
}

#[test]
fn checked_path_errors_describe_themselves() {
    assert_eq!(CheckedPathError::InvalidFilename.to_string(), "path contains invalid filename");
    assert_eq!(CheckedPathError::PathTraversalAttack.to_string(), "path attempts to escape original path");
    assert_eq!(CheckedPathError::UnexpectedPrefix.to_string(), "path contains unexpected prefix");
    assert_eq!(CheckedPathError::UnexpectedRoot.to_string(), "path contains unexpected root");
}

#[test]
fn paths_are_valid_when_every_name_is_allowed() {
    assert!(WindowsPath::new(br"C:\a\b.txt").is_valid());
    assert!(!WindowsPath::new(br"C:\a\b|c").is_valid());
    assert!(UnixPath::new(b"/a/b:c").is_valid());
    assert!(Utf8WindowsPath::new(r"\\server\share\ä").is_valid());
    assert!(!Utf8WindowsPath::new(r"x\a*b").is_valid());
}
