// The current directory is handed in: a Unix working directory, which the Windows encoding does
// not take for an absolute path, so a relative Windows path cannot be absolutized against it.
use typed_path::unix::{UnixPath, Utf8UnixPath};
use typed_path::windows::WindowsPath;

fn unix_cwd_as_windows() -> typed_path::windows::WindowsPathBuf {
    UnixPath::new(b"/home/user/work").with_windows_encoding()
}

#[test]
fn absolutize_should_fail_for_windows_path_with_drive_letter_only_prefix() {
    let p = WindowsPath::new(br"C:something");
    assert!(p.absolutize_against(unix_cwd_as_windows().as_path()).is_none())
}

#[test]
fn absolutize_should_fail_for_windows_path_with_verbatim_drive_letter_only_prefix() {
    let p = WindowsPath::new(br"\\?\C:something");
    assert!(p.absolutize_against(unix_cwd_as_windows().as_path()).is_none())
}

#[test]
fn absolutize_should_fail_for_windows_path_with_unc_server_only_prefix() {
    let p = WindowsPath::new(br"\\server");
    assert!(p.absolutize_against(unix_cwd_as_windows().as_path()).is_none())
}

#[test]
fn absolutize_should_fail_for_windows_path_with_verbatim_unc_server_only_prefix() {
    let p = WindowsPath::new(br"\\?\UNC\server");
    assert!(p.absolutize_against(unix_cwd_as_windows().as_path()).is_none())
}

#[test]
fn absolutize_normalizes_an_absolute_path() {
    let path = Utf8UnixPath::new("/a/b/../c/./d");
    let cwd = Utf8UnixPath::new("/elsewhere");
    assert_eq!(path.absolutize_against(cwd).unwrap().as_str(), "/a/c/d");
}

#[test]
fn absolutize_joins_a_relative_path_onto_the_current_directory() {
    let cwd = Utf8UnixPath::new("/home/user");
    let path = Utf8UnixPath::new("a/b/../c/./d");
    assert_eq!(path.absolutize_against(cwd).unwrap().as_str(), "/home/user/a/c/d");
    assert!(path.absolutize_against(Utf8UnixPath::new("rel")).is_none());
    assert_eq!(
        WindowsPath::new(br"x\..\y").absolutize_against(WindowsPath::new(br"C:\base")).unwrap().as_bytes(),
        br"C:\base\y"
    );
}

#[test]
fn absolutized_unix_paths_are_absolute() {
    let cwd = UnixPath::new(b"/home/user");
    for p in [&b"a/../../.."[..], b"../x", b"/..", b".", b"/a/./b/"] {
        let abs = UnixPath::new(p).absolutize_against(cwd).unwrap();
        assert!(abs.as_path().is_absolute());
    }
    assert_eq!(UnixPath::new(b"a/../../..").absolutize_against(cwd).unwrap().as_bytes(), b"/");
}

#[test]
fn absolutized_drive_paths_are_absolute() {
    let cwd = WindowsPath::new(br"C:\work");
    for p in [&br"a\..\..\b"[..], br"\x", br"C:\a\..", br"..", br"D:\y\.\z"] {
        let abs = WindowsPath::new(p).absolutize_against(cwd).unwrap();
        assert!(abs.as_path().is_absolute());
    }
    assert_eq!(WindowsPath::new(br"a\..\..\b").absolutize_against(cwd).unwrap().as_bytes(), br"C:\b");
    assert_eq!(WindowsPath::new(br"\x").absolutize_against(cwd).unwrap().as_bytes(), br"C:\x");
    // A kept name that reads as a drive replaces what came before it
    let odd = WindowsPath::new(br"C:\a\b:c").absolutize_against(cwd).unwrap();
    assert_eq!(odd.as_bytes(), b"b:c");
    assert!(!odd.as_path().is_absolute());
    // A path relative to another drive stays relative
    assert_eq!(WindowsPath::new(br"D:x").absolutize_against(cwd).unwrap().as_bytes(), b"D:x");
}

#[test]
fn absolutized_unc_and_device_paths_are_absolute() {
    let cwd = WindowsPath::new(br"\\server\share\work");
    let abs = WindowsPath::new(br"a\..\..\b").absolutize_against(cwd).unwrap();
    assert_eq!(abs.as_bytes(), br"\\server\share\b");
    assert!(abs.as_path().is_absolute());
    let dev = WindowsPath::new(br"\\.\COM1\x\..").absolutize_against(cwd).unwrap();
    assert_eq!(dev.as_bytes(), br"\\.\COM1\");
    assert!(dev.as_path().is_absolute());
    let slashes = WindowsPath::new(b"//server/share/a/../b").absolutize_against(cwd).unwrap();
    assert!(slashes.as_path().is_absolute());
}
