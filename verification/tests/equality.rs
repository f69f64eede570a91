use typed_path::common::PathBuf;
use typed_path::unix::{UnixComponents, UnixPath, UnixPathBuf, Utf8UnixPath};
use typed_path::windows::{Utf8WindowsPath, WindowsComponents, WindowsPath, WindowsPathBuf};

#[test]
fn paths_with_the_same_components_are_equal() {
    assert!(UnixPath::new(b"a//b/./c/") == UnixPath::new(b"a/b/c"));
    assert!(UnixPath::new(b"/a") != UnixPath::new(b"a"));
    assert!(UnixPath::new(b"a/..") != UnixPath::new(b"."));
    let x: UnixPathBuf = PathBuf::from_bytes(b"/tmp//x");
    let y: UnixPathBuf = PathBuf::from_bytes(b"/tmp/x/");
    assert!(x == y);
    assert!(x == x.clone());
}

#[test]
fn windows_paths_compare_prefixes_by_meaning() {
    assert!(WindowsPath::new(br"\\server\share\x") == WindowsPath::new(b"//server/share/x"));
    assert!(WindowsPath::new(br"C:\x") == WindowsPath::new(b"C:/x"));
    assert!(WindowsPath::new(br"C:\x") != WindowsPath::new(br"c:\x"));
    let a: WindowsPathBuf = PathBuf::from_bytes(br"C:\a\\b");
    let b: WindowsPathBuf = PathBuf::from_bytes(br"C:\a\b");
    assert!(a == b);
}

#[test]
fn utf8_paths_with_the_same_components_are_equal() {
    assert!(Utf8UnixPath::new("ä//ö/") == Utf8UnixPath::new("ä/ö"));
    assert!(Utf8UnixPath::new("ä/ö").to_path_buf() == Utf8UnixPath::new("ä/./ö").to_path_buf());
    assert!(Utf8WindowsPath::new(r"C:\ä") != Utf8WindowsPath::new(r"D:\ä"));
}

#[test]
fn component_iterators_compare_what_is_left() {
    assert!(UnixComponents::new(b"a//b/") == UnixComponents::new(b"a/b"));
    let mut it = UnixComponents::new(b"/x/a/b");
    it.next();
    it.next();
    assert!(it == UnixComponents::new(b"a/b"));
    assert!(UnixComponents::new(b"a") != UnixComponents::new(b"b"));
    assert!(WindowsComponents::new(br"C:\a") == WindowsComponents::new(b"C:/a"));
}
