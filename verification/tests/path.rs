use typed_path::common::path::rsplit_file_at_dot;
use typed_path::common::{Ancestors, Encoding, Iter, Path, PathBuf};
use typed_path::unix::{UnixEncoding, UnixPath, UnixPathBuf};
use typed_path::windows::{WindowsEncoding, WindowsPath, WindowsPathBuf};

fn unix_buf(s: &[u8]) -> UnixPathBuf {
    PathBuf::from_bytes(s)
}

fn win_buf(s: &[u8]) -> WindowsPathBuf {
    PathBuf::from_bytes(s)
}

#[test]
fn unix_has_root_and_is_absolute_follow_the_leading_separator() {
    assert!(UnixPath::new(b"/etc/passwd").has_root());
    assert!(!UnixPath::new(b"etc/passwd").has_root());
    assert!(UnixPath::new(b"/foo.txt").is_absolute());
    assert!(!UnixPath::new(b"foo.txt").is_absolute());
    assert!(UnixPath::new(b"foo.txt").is_relative());
}

#[test]
fn windows_has_root_follows_the_documented_cases() {
    assert!(WindowsPath::new(br"\windows").has_root());
    assert!(WindowsPath::new(br"c:\windows").has_root());
    assert!(WindowsPath::new(br"\\?\c:\windows").has_root());
    assert!(WindowsPath::new(br"\\?\pictures").has_root());
    assert!(WindowsPath::new(br"\\?\UNC\server").has_root());
    assert!(WindowsPath::new(br"\\?\UNC\server\share").has_root());
    assert!(WindowsPath::new(br"\\.\BrainInterface").has_root());
    assert!(!WindowsPath::new(br"c:windows").has_root());
    assert!(!WindowsPath::new(br"\\?\c:windows").has_root());
    assert!(!WindowsPath::new(br"etc\passwd").has_root());
}

#[test]
fn windows_is_absolute_needs_a_prefix_and_a_root() {
    assert!(WindowsPath::new(br"C:\foo.txt").is_absolute());
    assert!(!WindowsPath::new(br"C:foo.txt").is_absolute());
    assert!(!WindowsPath::new(br"\foo.txt").is_absolute());
    assert!(!WindowsPath::new(b"foo.txt").is_absolute());
}

#[test]
fn parent_drops_the_final_component() {
    let path = UnixPath::new(b"/foo/bar");
    let parent = path.parent().unwrap();
    assert_eq!(parent.as_bytes(), b"/foo");
    let grand_parent = parent.parent().unwrap();
    assert_eq!(grand_parent.as_bytes(), b"/");
    assert!(grand_parent.parent().is_none());

    let path = WindowsPath::new(br"C:\foo\bar");
    assert_eq!(path.parent().unwrap().as_bytes(), br"C:\foo");
    assert_eq!(WindowsPath::new(br"C:\foo").parent().unwrap().as_bytes(), br"C:\");
    assert!(WindowsPath::new(br"C:\").parent().is_none());
    assert!(WindowsPath::new(br"C:").parent().is_none());
    assert!(UnixPath::new(b"").parent().is_none());
    assert_eq!(UnixPath::new(b"foo").parent().unwrap().as_bytes(), b"");
}

#[test]
fn ancestors_walk_up_to_a_path_without_parent() {
    let mut ancestors = UnixPath::new(b"/foo/bar").ancestors();
    assert_eq!(ancestors.next().unwrap().as_bytes(), b"/foo/bar");
    assert_eq!(ancestors.next().unwrap().as_bytes(), b"/foo");
    assert_eq!(ancestors.next().unwrap().as_bytes(), b"/");
    assert!(ancestors.next().is_none());

    let mut ancestors: Ancestors<UnixEncoding> = UnixPath::new(b"../foo/bar").ancestors();
    assert_eq!(ancestors.next().unwrap().as_bytes(), b"../foo/bar");
    assert_eq!(ancestors.next().unwrap().as_bytes(), b"../foo");
    assert_eq!(ancestors.next().unwrap().as_bytes(), b"..");
    assert_eq!(ancestors.next().unwrap().as_bytes(), b"");
    assert!(ancestors.next().is_none());
}

#[test]
fn file_name_is_the_final_name() {
    assert_eq!(UnixPath::new(b"/usr/bin/").file_name(), Some(b"bin".as_slice()));
    assert_eq!(UnixPath::new(b"tmp/foo.txt").file_name(), Some(b"foo.txt".as_slice()));
    assert_eq!(UnixPath::new(b"foo.txt/.").file_name(), Some(b"foo.txt".as_slice()));
    assert_eq!(UnixPath::new(b"foo.txt/.//").file_name(), Some(b"foo.txt".as_slice()));
    assert_eq!(UnixPath::new(b"foo.txt/..").file_name(), None);
    assert_eq!(UnixPath::new(b"/").file_name(), None);
    assert_eq!(WindowsPath::new(br"C:\tmp\foo.txt").file_name(), Some(b"foo.txt".as_slice()));
    assert_eq!(WindowsPath::new(br"C:").file_name(), None);
}

#[test]
fn file_stem_and_extension_split_at_the_last_dot() {
    assert_eq!(UnixPath::new(b"foo.rs").file_stem(), Some(b"foo".as_slice()));
    assert_eq!(UnixPath::new(b"foo.tar.gz").file_stem(), Some(b"foo.tar".as_slice()));
    assert_eq!(UnixPath::new(b"foo.rs").extension(), Some(b"rs".as_slice()));
    assert_eq!(UnixPath::new(b"foo.tar.gz").extension(), Some(b"gz".as_slice()));
    assert_eq!(UnixPath::new(b".hidden").file_stem(), Some(b".hidden".as_slice()));
    assert_eq!(UnixPath::new(b".hidden").extension(), None);
    assert_eq!(UnixPath::new(b"noext").extension(), None);
    assert_eq!(UnixPath::new(b"noext").file_stem(), Some(b"noext".as_slice()));
    assert_eq!(UnixPath::new(b"/").file_stem(), None);
}

#[test]
fn rsplit_file_at_dot_splits_at_the_last_dot() {
    assert_eq!(rsplit_file_at_dot(b".."), (Some(b"..".as_slice()), None));
    assert_eq!(rsplit_file_at_dot(b"a.b.c"), (Some(b"a.b".as_slice()), Some(b"c".as_slice())));
    assert_eq!(rsplit_file_at_dot(b"abc"), (None, Some(b"abc".as_slice())));
    assert_eq!(rsplit_file_at_dot(b".abc"), (Some(b".abc".as_slice()), None));
    assert_eq!(rsplit_file_at_dot(b"abc."), (Some(b"abc".as_slice()), Some(b"".as_slice())));
}

#[test]
fn join_pushes_onto_a_copy() {
    assert_eq!(UnixPath::new(b"/etc").join(UnixPath::new(b"passwd")).as_bytes(), b"/etc/passwd");
    assert_eq!(UnixPath::new(b"/etc").join(UnixPath::new(b"/usr")).as_bytes(), b"/usr");
    assert_eq!(UnixPath::new(b"").join(UnixPath::new(b"a")).as_bytes(), b"a");
}

#[test]
fn with_file_name_and_with_extension_make_new_paths() {
    let path = UnixPath::new(b"/tmp/foo.txt");
    assert_eq!(path.with_file_name(b"bar.txt").as_bytes(), b"/tmp/bar.txt");
    let path = UnixPath::new(b"/tmp");
    assert_eq!(path.with_file_name(b"var").as_bytes(), b"/var");

    let path = UnixPath::new(b"foo.rs");
    assert_eq!(path.with_extension(b"txt").as_bytes(), b"foo.txt");
    let path = UnixPath::new(b"foo.tar.gz");
    assert_eq!(path.with_extension(b"").as_bytes(), b"foo.tar");
    assert_eq!(path.with_extension(b"xz").as_bytes(), b"foo.tar.xz");
    assert_eq!(
        path.with_extension(b"").as_path().with_extension(b"txt").as_bytes(),
        b"foo.txt"
    );
}

#[test]
fn unix_push_follows_the_documented_examples() {
    let mut path = unix_buf(b"/tmp");
    path.push(UnixPath::new(b"file.bk"));
    assert_eq!(path.as_bytes(), b"/tmp/file.bk");

    let mut path = unix_buf(b"/tmp");
    path.push(UnixPath::new(b"/etc"));
    assert_eq!(path.as_bytes(), b"/etc");

    let mut path = unix_buf(b"/tmp/");
    path.push(UnixPath::new(b"file"));
    assert_eq!(path.as_bytes(), b"/tmp/file");

    let mut path = unix_buf(b"/tmp");
    path.push(UnixPath::new(b""));
    assert_eq!(path.as_bytes(), b"/tmp");
}

#[test]
fn windows_push_follows_the_documented_examples() {
    let mut path = win_buf(br"C:\tmp");
    path.push(WindowsPath::new(b"file.bk"));
    assert_eq!(path.as_bytes(), br"C:\tmp\file.bk");

    let mut path = win_buf(br"C:\tmp");
    path.push(WindowsPath::new(br"\etc"));
    assert_eq!(path.as_bytes(), br"C:\etc");

    let mut path = win_buf(br"C:\tmp");
    path.push(WindowsPath::new(br"D:\etc"));
    assert_eq!(path.as_bytes(), br"D:\etc");

    let mut path = win_buf(br"C:\tmp");
    path.push(WindowsPath::new(br"D:etc"));
    assert_eq!(path.as_bytes(), br"D:etc");

    let mut path = win_buf(b"C:");
    path.push(WindowsPath::new(b"file"));
    assert_eq!(path.as_bytes(), b"C:file");

    let mut path = win_buf(br"a/");
    path.push(WindowsPath::new(b"b"));
    assert_eq!(path.as_bytes(), br"a/b");

    let mut path = win_buf(br"\\?\C:\windows");
    path.push(WindowsPath::new(br"..\system32\.\drivers"));
    assert_eq!(path.as_bytes(), br"\\?\C:\system32\drivers");

    let mut path = win_buf(br"\\?\C:\a\b");
    path.push(WindowsPath::new(br"\c"));
    assert_eq!(path.as_bytes(), br"\\?\C:\c");

    let mut path = win_buf(br"\\server\share\a");
    path.push(WindowsPath::new(br"\b"));
    assert_eq!(path.as_bytes(), br"\\server\share\b");
}

#[test]
fn pop_truncates_to_the_parent() {
    let mut p = unix_buf(b"/spirited/away.rs");
    assert!(p.pop());
    assert_eq!(p.as_bytes(), b"/spirited");
    assert!(p.pop());
    assert_eq!(p.as_bytes(), b"/");
    assert!(!p.pop());
    assert_eq!(p.as_bytes(), b"/");
}

#[test]
fn set_file_name_replaces_or_adds_a_name() {
    let mut buf = unix_buf(b"/");
    assert!(buf.as_path().file_name().is_none());
    buf.set_file_name(b"bar");
    assert_eq!(buf.as_bytes(), b"/bar");
    assert!(buf.as_path().file_name().is_some());
    buf.set_file_name(b"baz.txt");
    assert_eq!(buf.as_bytes(), b"/baz.txt");
}

#[test]
fn set_extension_adds_or_replaces_the_extension() {
    let mut p = unix_buf(b"/feel/the");
    assert!(p.set_extension(b"force"));
    assert_eq!(p.as_bytes(), b"/feel/the.force");
    assert!(p.set_extension(b"dark_side"));
    assert_eq!(p.as_bytes(), b"/feel/the.dark_side");
    assert!(p.set_extension(b""));
    assert_eq!(p.as_bytes(), b"/feel/the");

    let mut p = unix_buf(b"/a/b.rs/");
    assert!(p.set_extension(b"txt"));
    assert_eq!(p.as_bytes(), b"/a/b.txt");

    let mut p = unix_buf(b"/");
    assert!(!p.set_extension(b"txt"));
    assert_eq!(p.as_bytes(), b"/");

    // A file name that ends in `.` has an empty extension, which an empty one leaves as it is
    let mut p = unix_buf(b"foo.");
    assert!(p.set_extension(b""));
    assert_eq!(p.as_bytes(), b"foo.");
    assert!(p.set_extension(b"rs"));
    assert_eq!(p.as_bytes(), b"foo.rs");
}

#[test]
fn set_extension_reads_back_extension_stem_and_parent() {
    let mut p = unix_buf(b"/a/b.tar.gz//");
    let stem_before = p.as_path().file_stem().map(|s| s.to_vec());
    let parent_before = p.as_path().parent().map(|q| q.as_bytes().to_vec());
    assert!(p.set_extension(b"rs"));
    assert_eq!(p.as_path().extension(), Some(&b"rs"[..]));
    assert_eq!(p.as_path().file_stem().map(|s| s.to_vec()), stem_before);
    assert_eq!(p.as_path().file_stem(), Some(&b"b.tar"[..]));
    assert_eq!(p.as_path().parent().map(|q| q.as_bytes().to_vec()), parent_before);
    assert_eq!(p.as_bytes(), b"/a/b.tar.rs");

    let mut p = unix_buf(b".hidden");
    assert!(p.set_extension(b"txt"));
    assert_eq!(p.as_path().extension(), Some(&b"txt"[..]));
    assert_eq!(p.as_path().file_stem(), Some(&b".hidden"[..]));
    assert_eq!(p.as_path().parent().map(|q| q.as_bytes().to_vec()), Some(Vec::new()));
}

#[test]
fn windows_set_extension_reads_back_extension_stem_and_parent() {
    let mut p = win_buf(b"C:\\dir\\archive.tar.gz");
    assert!(p.set_extension(b"zip"));
    assert_eq!(p.as_bytes(), b"C:\\dir\\archive.tar.zip");
    assert_eq!(p.as_path().extension(), Some(&b"zip"[..]));
    assert_eq!(p.as_path().file_stem(), Some(&b"archive.tar"[..]));
    assert_eq!(p.as_path().parent().map(|q| q.as_bytes().to_vec()), Some(b"C:\\dir".to_vec()));

    let mut p = win_buf(b"C:notes");
    assert!(p.set_extension(b"txt"));
    assert_eq!(p.as_bytes(), b"C:notes.txt");
    assert_eq!(p.as_path().extension(), Some(&b"txt"[..]));
    assert_eq!(p.as_path().file_stem(), Some(&b"notes"[..]));
    assert_eq!(p.as_path().parent().map(|q| q.as_bytes().to_vec()), Some(b"C:".to_vec()));

    let mut p = win_buf(b"\\\\server\\share\\file");
    assert!(p.set_extension(b"md"));
    assert_eq!(p.as_bytes(), b"\\\\server\\share\\file.md");
    assert_eq!(p.as_path().extension(), Some(&b"md"[..]));
}

#[test]
fn path_buf_buffer_operations_keep_the_path() {
    let mut p: PathBuf<UnixEncoding> = PathBuf::with_capacity(10);
    assert_eq!(p.as_bytes(), b"");
    p.push(Path::new(b"abc"));
    assert!(p.capacity() >= 3);
    p.reserve(10);
    p.reserve_exact(5);
    assert!(p.try_reserve(1).is_ok());
    assert!(p.try_reserve_exact(1).is_ok());
    p.shrink_to_fit();
    p.shrink_to(1);
    assert_eq!(p.as_bytes(), b"abc");
    let v = p.into_vec();
    assert_eq!(v, b"abc".to_vec());

    let mut p: PathBuf<UnixEncoding> = PathBuf::from(b"xyz".to_vec());
    assert_eq!(p.as_bytes(), b"xyz");
    p.clear();
    assert_eq!(p.as_bytes(), b"");
    let q: PathBuf<UnixEncoding> = PathBuf::new();
    assert_eq!(q.as_bytes(), b"");
    let r: PathBuf<WindowsEncoding> = PathBuf::from_vec(b"C:".to_vec());
    assert_eq!(r.as_path().to_path_buf().as_bytes(), b"C:");
}

#[test]
fn iter_yields_components_as_bytes_from_both_ends() {
    let mut it: Iter<UnixEncoding> = UnixPath::new(b"/tmp/foo.txt").iter();
    assert_eq!(it.next(), Some(b"/".as_slice()));
    assert_eq!(it.as_path().as_bytes(), b"tmp/foo.txt");
    assert_eq!(it.next_back(), Some(b"foo.txt".as_slice()));
    assert_eq!(it.next(), Some(b"tmp".as_slice()));
    assert_eq!(it.next(), None);
    assert_eq!(it.next_back(), None);

    let mut it = WindowsPath::new(br"C:/tmp\foo.txt").iter();
    assert_eq!(it.as_path().as_bytes(), br"C:/tmp\foo.txt");
    assert_eq!(it.next(), Some(b"C:".as_slice()));
    assert_eq!(it.next(), Some(br"\".as_slice()));
    assert_eq!(it.next(), Some(b"tmp".as_slice()));
    assert_eq!(it.next(), Some(b"foo.txt".as_slice()));
    assert_eq!(it.next(), None);
}

#[test]
fn encodings_report_their_labels_and_roots() {
    assert_eq!(UnixEncoding::label(), "unix");
    assert_eq!(WindowsEncoding::label(), "windows");
    assert_eq!(UnixEncoding::root_bytes(), b"/");
    assert_eq!(WindowsEncoding::root_bytes(), br"\");
    assert!(UnixEncoding::has_root(b"/a"));
    assert!(WindowsEncoding::is_absolute(br"C:\a"));
}

fn unix_parts(p: &[u8]) -> Vec<Vec<u8>> {
    let mut it: Iter<UnixEncoding> = UnixPath::new(p).iter();
    let mut v = Vec::new();
    while let Some(c) = it.next() {
        v.push(c.to_vec());
    }
    v
}

#[test]
fn trailing_separator_is_ignored_by_unix_components() {
    for p in [&b"/a/b"[..], b"a", b"/", b".", b"a/.", b"..", b"a//b"] {
        let mut with_sep = p.to_vec();
        with_sep.push(b'/');
        assert_eq!(unix_parts(p), unix_parts(&with_sep));
    }
    assert_eq!(unix_parts(b"/a/b/"), vec![b"/".to_vec(), b"a".to_vec(), b"b".to_vec()]);
}

fn windows_parts(p: &[u8]) -> Vec<Vec<u8>> {
    let mut it: Iter<WindowsEncoding> = WindowsPath::new(p).iter();
    let mut v = Vec::new();
    while let Some(c) = it.next() {
        v.push(c.to_vec());
    }
    v
}

#[test]
fn trailing_separator_is_ignored_by_windows_components() {
    for p in [&br"C:\a"[..], br"a\b", br"\\server\share\x", br"\\?\C:\a", br"C:\", br"a/.", br".."] {
        let mut with_sep = p.to_vec();
        with_sep.push(b'\\');
        assert_eq!(windows_parts(p), windows_parts(&with_sep));
    }
    // Where the last component is a prefix, the separator is a root
    assert_eq!(windows_parts(br"C:"), vec![b"C:".to_vec()]);
    assert_eq!(windows_parts(br"C:\"), vec![b"C:".to_vec(), br"\".to_vec()]);
}

#[test]
fn repeated_separators_are_ignored_by_unix_components() {
    assert_eq!(unix_parts(b"a//b"), unix_parts(b"a/b"));
    assert_eq!(unix_parts(b"//a"), unix_parts(b"/a"));
    assert_eq!(unix_parts(b"a/b//"), unix_parts(b"a/b/"));
    assert_eq!(unix_parts(b"././/a"), unix_parts(b"././a"));
    assert_eq!(unix_parts(b"a//b"), vec![b"a".to_vec(), b"b".to_vec()]);
}

#[test]
fn current_dirs_are_ignored_by_unix_components_past_the_start() {
    assert_eq!(unix_parts(b"a/./b"), unix_parts(b"a/b"));
    assert_eq!(unix_parts(b"a/b/./"), unix_parts(b"a/b/"));
    assert_eq!(unix_parts(b"a/b/."), unix_parts(b"a/b"));
    assert_eq!(unix_parts(b"/./a"), unix_parts(b"/a"));
    assert_eq!(unix_parts(b"./a/b"), vec![b".".to_vec(), b"a".to_vec(), b"b".to_vec()]);
}

#[test]
fn repeated_separators_are_ignored_by_windows_components_past_the_prefix() {
    assert_eq!(windows_parts(br"a\\b"), windows_parts(br"a\b"));
    assert_eq!(windows_parts(br"C:\\a"), windows_parts(br"C:\a"));
    assert_eq!(windows_parts(br"\\server\share\\a"), windows_parts(br"\\server\share\a"));
    assert_eq!(windows_parts(br"\\?\C:\a\\b"), windows_parts(br"\\?\C:\a\b"));
    // Two separators at the start make a UNC prefix
    assert_eq!(windows_parts(br"\\a"), vec![br"\\a".to_vec()]);
    assert_eq!(windows_parts(br"\a"), vec![br"\".to_vec(), b"a".to_vec()]);
}

#[test]
fn current_dirs_are_ignored_by_windows_components_past_the_prefix() {
    assert_eq!(windows_parts(br"a\.\b"), windows_parts(br"a\b"));
    assert_eq!(windows_parts(br"C:\.\a"), windows_parts(br"C:\a"));
    assert_eq!(windows_parts(br"\\server\share\.\a"), windows_parts(br"\\server\share\a"));
    assert_eq!(windows_parts(br"a\b\."), windows_parts(br"a\b"));
    // Paths that start with exactly `\\?\` keep their `.` components
    assert_eq!(
        windows_parts(br"\\?\C:\a\.\b"),
        vec![br"\\?\C:".to_vec(), br"\".to_vec(), b"a".to_vec(), b".".to_vec(), b"b".to_vec()]
    );
    // Right after a verbatim prefix named `UNC`, a `.` makes a verbatim UNC prefix
    assert_ne!(windows_parts(b"//?/UNC/./x"), windows_parts(b"//?/UNC//x"));
}

#[test]
fn parent_dirs_are_not_resolved_by_components() {
    assert_ne!(unix_parts(b"a/b/../c"), unix_parts(b"a/c"));
    assert_ne!(windows_parts(br"a\b\..\c"), windows_parts(br"a\c"));
}
