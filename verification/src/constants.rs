//! Constants associated with the path formats, and the byte strings they stand for.
use vstd::prelude::*;

verus! {

/// The primary separator of path components for unix platforms
pub const UNIX_SEPARATOR: char = '/';

/// The primary separator of path components for unix platforms, as a byte
pub const UNIX_SEPARATOR_BYTE: u8 = 47u8;

/// The primary separator of path components for windows platforms
pub const WINDOWS_SEPARATOR: char = '\\';

/// The primary separator of path components for windows platforms, as a byte
pub const WINDOWS_SEPARATOR_BYTE: u8 = 92u8;

/// The alternate separator of path components for windows platforms, as a byte
pub const WINDOWS_ALT_SEPARATOR_BYTE: u8 = 47u8;

/// The byte `.` that makes up the current and parent directory components
pub const DOT_BYTE: u8 = 46u8;

/// The nul byte, which no unix file or directory name may hold
pub const NUL_BYTE: u8 = 0u8;

/// The byte `:` that follows a drive letter
pub const COLON_BYTE: u8 = 58u8;

/// The byte `?` of a verbatim prefix
pub const QUESTION_BYTE: u8 = 63u8;

/// Byte string of the unix separator, `/`
pub fn unix_separator_bytes() -> (res: &'static [u8])
    ensures
        res@ == seq![UNIX_SEPARATOR_BYTE],
{
    let r: &'static [u8] = "/".as_bytes();
    proof {
        reveal_strlit("/");
        vstd::string::is_ascii_spec_bytes("/");
    }
    r
}

/// Byte string of the windows separator, `\`
pub fn windows_separator_bytes() -> (res: &'static [u8])
    ensures
        res@ == seq![WINDOWS_SEPARATOR_BYTE],
{
    let r: &'static [u8] = "\\".as_bytes();
    proof {
        reveal_strlit("\\");
        vstd::string::is_ascii_spec_bytes("\\");
    }
    r
}

/// Byte string of the current directory component, `.`
pub fn current_dir_bytes() -> (res: &'static [u8])
    ensures
        res@ == seq![DOT_BYTE],
{
    let r: &'static [u8] = ".".as_bytes();
    proof {
        reveal_strlit(".");
        vstd::string::is_ascii_spec_bytes(".");
    }
    r
}

/// Byte string of the parent directory component, `..`
pub fn parent_dir_bytes() -> (res: &'static [u8])
    ensures
        res@ == seq![DOT_BYTE, DOT_BYTE],
{
    let r: &'static [u8] = "..".as_bytes();
    proof {
        reveal_strlit("..");
        vstd::string::is_ascii_spec_bytes("..");
    }
    r
}

/// Byte string `UNC` of a verbatim UNC prefix
pub fn unc_bytes() -> (res: &'static [u8])
    ensures
        res@ == seq![85u8, 78u8, 67u8],
{
    let r: &'static [u8] = "UNC".as_bytes();
    proof {
        reveal_strlit("UNC");
        vstd::string::is_ascii_spec_bytes("UNC");
    }
    r
}

} // verus!
