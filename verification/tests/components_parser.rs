use typed_path::unix::parser::{
    cur_dir as unix_cur_dir, file_or_dir_name, normal as unix_normal,
    parent_dir as unix_parent_dir, root_dir as unix_root_dir, separator as unix_separator,
    Parser as UnixParser,
};
use typed_path::unix::{parse, unix_components, UnixComponent};
use typed_path::windows::parser::{
    cur_dir as win_cur_dir, normal as win_normal, parent_dir as win_parent_dir, prefix,
    prefix_component, prefix_device_ns, prefix_disk, prefix_unc, prefix_verbatim,
    prefix_verbatim_disk, prefix_verbatim_unc, root_dir as win_root_dir,
    separator as win_separator, Parser as WindowsParser,
};
use typed_path::parser::ParseResult;
use typed_path::windows::{WindowsComponent, WindowsPrefix};

const UNIX_SEPARATOR: char = '/';
const WINDOWS_SEPARATOR: char = '\\';
const WINDOWS_ALT_SEPARATOR: char = '/';
const CURRENT_DIR: &[u8] = b".";
const PARENT_DIR: &[u8] = b"..";
const UNIX_DISALLOWED_FILENAME_BYTES: [u8; 2] = [b'/', b'\0'];

fn unix_sep(cnt: usize) -> Vec<u8> {
    let mut v = Vec::new();
    for _ in 0..cnt {
        v.push(UNIX_SEPARATOR as u8);
    }
    v
}

fn win_sep(cnt: usize) -> Vec<u8> {
    let mut v = Vec::new();
    for _ in 0..cnt {
        v.push(WINDOWS_SEPARATOR as u8);
    }
    v
}

fn normalizing_root_dir(input: &[u8]) -> ParseResult<WindowsComponent> {
    win_root_dir(true, input)
}

fn normalizing_cur_dir(input: &[u8]) -> ParseResult<WindowsComponent> {
    win_cur_dir(true, input)
}

fn normalizing_parent_dir(input: &[u8]) -> ParseResult<WindowsComponent> {
    win_parent_dir(true, input)
}

fn normalizing_normal(input: &[u8]) -> ParseResult<WindowsComponent> {
    win_normal(true, input)
}

fn get_prefix<'a, E: std::fmt::Display>(
    component: impl Into<Result<WindowsComponent<'a>, E>>,
) -> WindowsPrefix<'a> {
    match component.into() {
        Ok(WindowsComponent::Prefix(p)) => p.kind(),
        Ok(_) => panic!("not a prefix"),
        Err(x) => panic!("get_prefix(err({x}))"),
    }
}

#[test]
fn parser_should_support_parsing_single_component_from_front() {
    // Unix
    UnixParser::new(b"").next_front().unwrap_err();
    UnixParser::new(b"abc\0def").next_front().unwrap_err();

    let mut parser = UnixParser::new(&[UNIX_SEPARATOR as u8]);
    assert_eq!(parser.next_front(), Ok(UnixComponent::RootDir));
    assert_eq!(parser.remaining(), b"");
    assert!(parser.next_front().is_err());

    let mut parser = UnixParser::new(CURRENT_DIR);
    assert_eq!(parser.next_front(), Ok(UnixComponent::CurDir));
    assert_eq!(parser.remaining(), b"");
    assert!(parser.next_front().is_err());
    let mut parser = UnixParser::new(PARENT_DIR);
    assert_eq!(parser.next_front(), Ok(UnixComponent::ParentDir));
    assert_eq!(parser.remaining(), b"");
    assert!(parser.next_front().is_err());

    let mut parser = UnixParser::new(b"hello");
    assert_eq!(parser.next_front(), Ok(UnixComponent::Normal(b"hello")));
    assert_eq!(parser.remaining(), b"");
    assert!(parser.next_front().is_err());

    // Windows
    WindowsParser::new(b"").next_front().unwrap_err();

    let mut parser = WindowsParser::new(&[WINDOWS_SEPARATOR as u8]);
    assert_eq!(parser.next_front(), Ok(WindowsComponent::RootDir));
    assert_eq!(parser.remaining(), b"");
    assert!(parser.next_front().is_err());

    let mut parser = WindowsParser::new(&[WINDOWS_ALT_SEPARATOR as u8]);
    assert_eq!(parser.next_front(), Ok(WindowsComponent::RootDir));
    assert_eq!(parser.remaining(), b"");
    assert!(parser.next_front().is_err());

    let mut parser = WindowsParser::new(CURRENT_DIR);
    assert_eq!(parser.next_front(), Ok(WindowsComponent::CurDir));
    assert_eq!(parser.remaining(), b"");
    assert!(parser.next_front().is_err());

    let mut parser = WindowsParser::new(PARENT_DIR);
    assert_eq!(parser.next_front(), Ok(WindowsComponent::ParentDir));
    assert_eq!(parser.remaining(), b"");
    assert!(parser.next_front().is_err());

    let mut parser = WindowsParser::new(b"hello");
    assert_eq!(parser.next_front(), Ok(WindowsComponent::Normal(b"hello")));
    assert_eq!(parser.remaining(), b"");
    assert!(parser.next_front().is_err());

    let mut parsers = WindowsParser::new(b"C:");
    assert_eq!(get_prefix(parsers.next_front()), WindowsPrefix::Disk(b'C'));
    assert_eq!(parser.remaining(), b"");
    assert!(parser.next_front().is_err());
}

#[test]
fn parser_should_support_parsing_from_multiple_components_from_front() {
    // Unix
    unix_components(b"").unwrap_err();
    unix_components(b"\0hello").unwrap_err();

    let (input, mut components) = unix_components(&[UNIX_SEPARATOR as u8]).unwrap();
    assert_eq!(input, b"");
    assert_eq!(components.next(), Some(UnixComponent::RootDir));
    assert_eq!(components.next(), None);

    let input = unix_sep(2);
    let (input, mut components) = unix_components(&input).unwrap();
    assert_eq!(input, b"");
    assert_eq!(components.next(), Some(UnixComponent::RootDir));
    assert_eq!(components.next(), None);

    let input = &[&[b'a'], unix_sep(1).as_slice(), &[b'b'], unix_sep(1).as_slice(), &[b'c']].concat();
    let (input, mut components) = unix_components(input).unwrap();
    assert_eq!(input, b"");
    assert_eq!(components.next(), Some(UnixComponent::Normal(b"a")));
    assert_eq!(components.next(), Some(UnixComponent::Normal(b"b")));
    assert_eq!(components.next(), Some(UnixComponent::Normal(b"c")));
    assert_eq!(components.next(), None);

    let input = &[CURRENT_DIR, unix_sep(1).as_slice(), &[b'b'], unix_sep(1).as_slice(), &[b'c']].concat();
    let (input, mut components) = unix_components(input).unwrap();
    assert_eq!(input, b"");
    assert_eq!(components.next(), Some(UnixComponent::CurDir));
    assert_eq!(components.next(), Some(UnixComponent::Normal(b"b")));
    assert_eq!(components.next(), Some(UnixComponent::Normal(b"c")));
    assert_eq!(components.next(), None);

    let input = &[
        unix_sep(1).as_slice(),
        CURRENT_DIR,
        unix_sep(1).as_slice(),
        &[b'b'],
        unix_sep(1).as_slice(),
        &[b'c'],
    ]
    .concat();
    let (input, mut components) = unix_components(input).unwrap();
    assert_eq!(input, b"");
    assert_eq!(components.next(), Some(UnixComponent::RootDir));
    assert_eq!(components.next(), Some(UnixComponent::Normal(b"b")));
    assert_eq!(components.next(), Some(UnixComponent::Normal(b"c")));
    assert_eq!(components.next(), None);

    let input = &[&[b'a'], unix_sep(1).as_slice(), CURRENT_DIR, unix_sep(1).as_slice(), &[b'c']].concat();
    let (input, mut components) = unix_components(input).unwrap();
    assert_eq!(input, b"");
    assert_eq!(components.next(), Some(UnixComponent::Normal(b"a")));
    assert_eq!(components.next(), Some(UnixComponent::Normal(b"c")));
    assert_eq!(components.next(), None);

    let input = &[
        unix_sep(5).as_slice(),
        &[b'a'],
        unix_sep(3).as_slice(),
        CURRENT_DIR,
        unix_sep(2).as_slice(),
        PARENT_DIR,
        unix_sep(3).as_slice(),
    ]
    .concat();
    let (input, mut components) = unix_components(input).unwrap();
    assert_eq!(input, b"");
    assert_eq!(components.next(), Some(UnixComponent::RootDir));
    assert_eq!(components.next(), Some(UnixComponent::Normal(b"a")));
    assert_eq!(components.next(), Some(UnixComponent::ParentDir));
    assert_eq!(components.next(), None);

    // Windows
    WindowsParser::new(b"").next_front().unwrap_err();

    let mut parser = WindowsParser::new(br"\\server\share");
    assert_eq!(get_prefix(parser.next_front()), WindowsPrefix::UNC(b"server", b"share"));
    assert_eq!(parser.remaining(), b"");
    assert!(parser.next_front().is_err());

    let mut parser = WindowsParser::new(br"\");
    assert_eq!(parser.next_front(), Ok(WindowsComponent::RootDir));
    assert_eq!(parser.remaining(), b"");
    assert!(parser.next_front().is_err());

    let mut parser = WindowsParser::new(br"\\");
    assert_eq!(parser.next_front(), Ok(WindowsComponent::RootDir));
    assert_eq!(parser.remaining(), b"");
    assert!(parser.next_front().is_err());

    let mut parser = WindowsParser::new(br"a\b\c");
    assert_eq!(parser.next_front(), Ok(WindowsComponent::Normal(b"a")));
    assert_eq!(parser.next_front(), Ok(WindowsComponent::Normal(b"b")));
    assert_eq!(parser.next_front(), Ok(WindowsComponent::Normal(b"c")));
    assert_eq!(parser.remaining(), b"");
    assert!(parser.next_front().is_err());

    let mut parser = WindowsParser::new(br".\b\c");
    assert_eq!(parser.next_front(), Ok(WindowsComponent::CurDir));
    assert_eq!(parser.next_front(), Ok(WindowsComponent::Normal(b"b")));
    assert_eq!(parser.next_front(), Ok(WindowsComponent::Normal(b"c")));
    assert_eq!(parser.remaining(), b"");
    assert!(parser.next_front().is_err());

    let mut parser = WindowsParser::new(br"C:.");
    assert_eq!(get_prefix(parser.next_front()), WindowsPrefix::Disk(b'C'));
    assert_eq!(parser.next_front(), Ok(WindowsComponent::CurDir));
    assert_eq!(parser.remaining(), b"");
    assert!(parser.next_front().is_err());

    let mut parser = WindowsParser::new(br"C:.\");
    assert_eq!(get_prefix(parser.next_front()), WindowsPrefix::Disk(b'C'));
    assert_eq!(parser.next_front(), Ok(WindowsComponent::CurDir));
    assert_eq!(parser.remaining(), b"");
    assert!(parser.next_front().is_err());

    let mut parser = WindowsParser::new(br"\\?\C:.");
    assert_eq!(get_prefix(parser.next_front()), WindowsPrefix::VerbatimDisk(b'C'));
    assert_eq!(parser.next_front(), Ok(WindowsComponent::CurDir));
    assert_eq!(parser.remaining(), b"");
    assert!(parser.next_front().is_err());

    let mut parser = WindowsParser::new(br"\.\b\c");
    assert_eq!(parser.next_front(), Ok(WindowsComponent::RootDir));
    assert_eq!(parser.next_front(), Ok(WindowsComponent::Normal(b"b")));
    assert_eq!(parser.next_front(), Ok(WindowsComponent::Normal(b"c")));
    assert_eq!(parser.remaining(), b"");
    assert!(parser.next_front().is_err());

    let mut parser = WindowsParser::new(br"a\.\c");
    assert_eq!(parser.next_front(), Ok(WindowsComponent::Normal(b"a")));
    assert_eq!(parser.next_front(), Ok(WindowsComponent::Normal(b"c")));
    assert_eq!(parser.remaining(), b"");
    assert!(parser.next_front().is_err());

    let mut parser = WindowsParser::new(br"\\\\\a\\\.\\..\\\");
    assert_eq!(parser.next_front(), Ok(WindowsComponent::RootDir));
    assert_eq!(parser.next_front(), Ok(WindowsComponent::Normal(b"a")));
    assert_eq!(parser.next_front(), Ok(WindowsComponent::ParentDir));
    assert_eq!(parser.remaining(), b"");
    assert!(parser.next_front().is_err());

    // Prefix should come before root should come before path; the input carries the drive that
    // the expected components start with
    let mut parser = WindowsParser::new(br"C:\\\\\a\\\.\\..\\\");
    assert_eq!(get_prefix(parser.next_front()), WindowsPrefix::Disk(b'C'));
    assert_eq!(parser.next_front(), Ok(WindowsComponent::RootDir));
    assert_eq!(parser.next_front(), Ok(WindowsComponent::Normal(b"a")));
    assert_eq!(parser.next_front(), Ok(WindowsComponent::ParentDir));
    assert_eq!(parser.remaining(), b"");
    assert!(parser.next_front().is_err());

    let mut parser = WindowsParser::new(br"\\?\pictures\a\.\..\.");
    assert_eq!(get_prefix(parser.next_front()), WindowsPrefix::Verbatim(b"pictures"));
    assert_eq!(parser.next_front(), Ok(WindowsComponent::RootDir));
    assert_eq!(parser.next_front(), Ok(WindowsComponent::Normal(b"a")));
    assert_eq!(parser.next_front(), Ok(WindowsComponent::CurDir));
    assert_eq!(parser.next_front(), Ok(WindowsComponent::ParentDir));
    assert_eq!(parser.next_front(), Ok(WindowsComponent::CurDir));
    assert_eq!(parser.remaining(), b"");
    assert!(parser.next_front().is_err());
}

#[test]
fn validate_rust_variation_4() {
    let mut parser = WindowsParser::new(br"\\?\\hello");
    assert_eq!(get_prefix(parser.next_front()), WindowsPrefix::Verbatim(b""));
    assert_eq!(parser.next_front(), Ok(WindowsComponent::RootDir));
    assert_eq!(parser.next_front(), Ok(WindowsComponent::Normal(b"hello")));
    assert!(parser.next_front().is_err());
}

#[test]
fn validate_arbitrary_rules_to_match_std_lib() {
    let mut parser = WindowsParser::new(br"\\?\C:");
    assert_eq!(get_prefix(parser.next_front()), WindowsPrefix::VerbatimDisk(b'C'));
    assert!(parser.next_front().is_err());

    let mut parser = WindowsParser::new(br"\\?\C:\");
    assert_eq!(get_prefix(parser.next_front()), WindowsPrefix::VerbatimDisk(b'C'));
    assert_eq!(parser.next_front(), Ok(WindowsComponent::RootDir));
    assert!(parser.next_front().is_err());

    let mut parser = WindowsParser::new(br"\\?\.\hello\.\again");
    assert_eq!(get_prefix(parser.next_front()), WindowsPrefix::Verbatim(b"."));
    assert_eq!(parser.next_front(), Ok(WindowsComponent::RootDir));
    assert_eq!(parser.next_front(), Ok(WindowsComponent::Normal(b"hello")));
    assert_eq!(parser.next_front(), Ok(WindowsComponent::CurDir));
    assert_eq!(parser.next_front(), Ok(WindowsComponent::Normal(b"again")));
    assert!(parser.next_front().is_err());

    let mut parser = WindowsParser::new(br"\\?\.\\\hello\\\.\\\again");
    assert_eq!(get_prefix(parser.next_front()), WindowsPrefix::Verbatim(b"."));
    assert_eq!(parser.next_front(), Ok(WindowsComponent::RootDir));
    assert_eq!(parser.next_front(), Ok(WindowsComponent::Normal(b"hello")));
    assert_eq!(parser.next_front(), Ok(WindowsComponent::CurDir));
    assert_eq!(parser.next_front(), Ok(WindowsComponent::Normal(b"again")));
    assert!(parser.next_front().is_err());

    let mut parser = WindowsParser::new(br"\\?\UNC\server");
    assert_eq!(get_prefix(parser.next_front()), WindowsPrefix::VerbatimUNC(b"server", b""));
    assert!(parser.next_front().is_err());

    let mut parser = WindowsParser::new(br"\\?\some/name");
    assert_eq!(get_prefix(parser.next_front()), WindowsPrefix::Verbatim(b"some/name"));
    assert!(parser.next_front().is_err());
}

#[test]
fn validate_prefix_component() {
    prefix_component(b"").unwrap_err();
    prefix_component(&[WINDOWS_SEPARATOR as u8]).unwrap_err();

    let (input, value) = prefix_component(b"C:").unwrap();
    assert_eq!(input, b"");
    assert_eq!(value.as_bytes(), b"C:");
    assert_eq!(value.kind(), WindowsPrefix::Disk(b'C'));

    let (input, value) = prefix_component(br"\\?\pictures").unwrap();
    assert_eq!(input, b"");
    assert_eq!(value.as_bytes(), br"\\?\pictures");
    assert_eq!(value.kind(), WindowsPrefix::Verbatim(b"pictures"));

    let (input, value) = prefix_component(br"\\?\UNC\server\share").unwrap();
    assert_eq!(input, b"");
    assert_eq!(value.as_bytes(), br"\\?\UNC\server\share");
    assert_eq!(value.kind(), WindowsPrefix::VerbatimUNC(b"server", b"share"));

    let (input, value) = prefix_component(br"\\?\C:").unwrap();
    assert_eq!(input, b"");
    assert_eq!(value.as_bytes(), br"\\?\C:");
    assert_eq!(value.kind(), WindowsPrefix::VerbatimDisk(b'C'));

    let (input, value) = prefix_component(br"\\.\BrainInterface").unwrap();
    assert_eq!(input, b"");
    assert_eq!(value.as_bytes(), br"\\.\BrainInterface");
    assert_eq!(value.kind(), WindowsPrefix::DeviceNS(b"BrainInterface"));

    let (input, value) = prefix_component(br"\\server\share").unwrap();
    assert_eq!(input, b"");
    assert_eq!(value.as_bytes(), br"\\server\share");
    assert_eq!(value.kind(), WindowsPrefix::UNC(b"server", b"share"));

    let (input, value) = prefix_component(br"C:\path").unwrap();
    assert_eq!(input, br"\path");
    assert_eq!(value.as_bytes(), b"C:");
    assert_eq!(value.kind(), WindowsPrefix::Disk(b'C'));
}

#[test]
fn validate_prefix() {
    prefix(b"").unwrap_err();
    prefix(&[WINDOWS_SEPARATOR as u8]).unwrap_err();

    let (input, value) = prefix(b"C:").unwrap();
    assert_eq!(input, b"");
    assert_eq!(value, WindowsPrefix::Disk(b'C'));

    let (input, value) = prefix(br"\\?\pictures").unwrap();
    assert_eq!(input, b"");
    assert_eq!(value, WindowsPrefix::Verbatim(b"pictures"));

    let (input, value) = prefix(br"\\?\UNC\server\share").unwrap();
    assert_eq!(input, b"");
    assert_eq!(value, WindowsPrefix::VerbatimUNC(b"server", b"share"));

    let (input, value) = prefix(br"\\?\C:").unwrap();
    assert_eq!(input, b"");
    assert_eq!(value, WindowsPrefix::VerbatimDisk(b'C'));

    let (input, value) = prefix(br"\\.\BrainInterface").unwrap();
    assert_eq!(input, b"");
    assert_eq!(value, WindowsPrefix::DeviceNS(b"BrainInterface"));

    let (input, value) = prefix(br"\\server\share").unwrap();
    assert_eq!(input, b"");
    assert_eq!(value, WindowsPrefix::UNC(b"server", b"share"));
}

#[test]
fn validate_prefix_verbatim_unc() {
    prefix_verbatim_unc(b"").unwrap_err();

    prefix_verbatim_unc(br"server\share").unwrap_err();
    prefix_verbatim_unc(br"\server\share").unwrap_err();
    prefix_verbatim_unc(br"\\server\share").unwrap_err();
    prefix_verbatim_unc(br"\\?server\share").unwrap_err();
    prefix_verbatim_unc(br"\?\server\share").unwrap_err();
    prefix_verbatim_unc(br"?\\server\share").unwrap_err();
    prefix_verbatim_unc(br"?\\?\server\share").unwrap_err();
    prefix_verbatim_unc(br"\\?\UNCserver\share").unwrap_err();
    prefix_verbatim_unc(br"\?\UNC\server\share").unwrap_err();
    prefix_verbatim_unc(br"\\.\UNC\server\share").unwrap_err();
    prefix_verbatim_unc(br"\\?\UN\server\share").unwrap_err();

    prefix_verbatim_unc(br"\\?\C:").unwrap_err();
    prefix_verbatim_unc(br"\\?\pictures").unwrap_err();

    let (input, value) = prefix_verbatim_unc(br"\\?/UNC\server\share").unwrap();
    assert_eq!(input, b"");
    assert_eq!(value, WindowsPrefix::VerbatimUNC(b"server", b"share"));

    let (input, value) = prefix_verbatim_unc(br"\/?\UNC\server\share").unwrap();
    assert_eq!(input, b"");
    assert_eq!(value, WindowsPrefix::VerbatimUNC(b"server", b"share"));

    let (input, value) = prefix_verbatim_unc(br"/\?\UNC\server\share").unwrap();
    assert_eq!(input, b"");
    assert_eq!(value, WindowsPrefix::VerbatimUNC(b"server", b"share"));

    let (input, value) = prefix_verbatim_unc(br"\\?\UNC\server\share").unwrap();
    assert_eq!(input, b"");
    assert_eq!(value, WindowsPrefix::VerbatimUNC(b"server", b"share"));

    let (input, value) = prefix_verbatim_unc(br"\\?\UNC\server/share").unwrap();
    assert_eq!(input, b"");
    assert_eq!(value, WindowsPrefix::VerbatimUNC(b"server/share", b""));

    let (input, value) = prefix_verbatim_unc(br"\\?\UNC\server/share").unwrap();
    assert_eq!(input, b"");
    assert_eq!(value, WindowsPrefix::VerbatimUNC(b"server/share", b""));

    let (input, value) = prefix_verbatim_unc(br"\\?\UNC\server").unwrap();
    assert_eq!(input, b"");
    assert_eq!(value, WindowsPrefix::VerbatimUNC(b"server", b""));

    prefix_verbatim_unc(br"\\?\UNC/server\share").unwrap_err();
    prefix_verbatim_unc(br"\\?\UNC/server/share").unwrap_err();

    let (input, value) = prefix_verbatim_unc(br"\\?\UNC\server\share\hello").unwrap();
    assert_eq!(input, br"\hello");
    assert_eq!(value, WindowsPrefix::VerbatimUNC(b"server", b"share"));
}

#[test]
fn validate_prefix_verbatim() {
    prefix_verbatim(b"").unwrap_err();

    prefix_verbatim(br"pictures").unwrap_err();
    prefix_verbatim(br"\pictures").unwrap_err();
    prefix_verbatim(br"\\pictures").unwrap_err();
    prefix_verbatim(br"\\?pictures").unwrap_err();
    prefix_verbatim(br"\?\pictures").unwrap_err();
    prefix_verbatim(br"?\\pictures").unwrap_err();
    prefix_verbatim(br"?\\?\pictures").unwrap_err();

    prefix_verbatim(br"\\?\C:").unwrap_err();
    prefix_verbatim(br"\\?\UNC\server\share").unwrap_err();

    let (input, value) = prefix_verbatim(br"\\?\pictures").unwrap();
    assert_eq!(input, b"");
    assert_eq!(value, WindowsPrefix::Verbatim(b"pictures"));

    let (input, value) = prefix_verbatim(br"\\?/pictures").unwrap();
    assert_eq!(input, b"");
    assert_eq!(value, WindowsPrefix::Verbatim(b"pictures"));

    let (input, value) = prefix_verbatim(br"\/?\pictures").unwrap();
    assert_eq!(input, b"");
    assert_eq!(value, WindowsPrefix::Verbatim(b"pictures"));

    let (input, value) = prefix_verbatim(br"/\?\pictures").unwrap();
    assert_eq!(input, b"");
    assert_eq!(value, WindowsPrefix::Verbatim(b"pictures"));

    let (input, value) = prefix_verbatim(br"\\?\pictures\hello").unwrap();
    assert_eq!(input, br"\hello");
    assert_eq!(value, WindowsPrefix::Verbatim(b"pictures"));
}

#[test]
fn validate_prefix_verbatim_disk() {
    prefix_verbatim_disk(b"").unwrap_err();

    prefix_verbatim_disk(br"C:").unwrap_err();
    prefix_verbatim_disk(br"\C:").unwrap_err();
    prefix_verbatim_disk(br"\\C:").unwrap_err();
    prefix_verbatim_disk(br"\\?C:").unwrap_err();
    prefix_verbatim_disk(br"\?\C:").unwrap_err();
    prefix_verbatim_disk(br"?\\C:").unwrap_err();
    prefix_verbatim_disk(br"?\\?\C:").unwrap_err();

    prefix_verbatim_disk(br"\\?\pictures").unwrap_err();
    prefix_verbatim_disk(br"\\?\UNC\server\share").unwrap_err();

    let (input, value) = prefix_verbatim_disk(br"\\?\C:").unwrap();
    assert_eq!(input, b"");
    assert_eq!(value, WindowsPrefix::VerbatimDisk(b'C'));

    let (input, value) = prefix_verbatim_disk(br"\\?/C:").unwrap();
    assert_eq!(input, b"");
    assert_eq!(value, WindowsPrefix::VerbatimDisk(b'C'));

    let (input, value) = prefix_verbatim_disk(br"\/?\C:").unwrap();
    assert_eq!(input, b"");
    assert_eq!(value, WindowsPrefix::VerbatimDisk(b'C'));

    let (input, value) = prefix_verbatim_disk(br"/\?\C:").unwrap();
    assert_eq!(input, b"");
    assert_eq!(value, WindowsPrefix::VerbatimDisk(b'C'));

    let (input, value) = prefix_verbatim_disk(br"\\?\C:.").unwrap();
    assert_eq!(input, b".");
    assert_eq!(value, WindowsPrefix::VerbatimDisk(b'C'));

    let (input, value) = prefix_verbatim_disk(br"\\?\C:\").unwrap();
    assert_eq!(input, br"\");
    assert_eq!(value, WindowsPrefix::VerbatimDisk(b'C'));
}

#[test]
fn validate_prefix_device_ns() {
    prefix_device_ns(b"").unwrap_err();

    prefix_device_ns(br"BrainInterface").unwrap_err();
    prefix_device_ns(br"\BrainInterface").unwrap_err();
    prefix_device_ns(br"\\BrainInterface").unwrap_err();
    prefix_device_ns(br"\\.BrainInterface").unwrap_err();
    prefix_device_ns(br"\.\BrainInterface").unwrap_err();
    prefix_device_ns(br".\\BrainInterface").unwrap_err();
    prefix_device_ns(br".\\.\BrainInterface").unwrap_err();

    let (input, value) = prefix_device_ns(br"\\.\BrainInterface").unwrap();
    assert_eq!(input, b"");
    assert_eq!(value, WindowsPrefix::DeviceNS(b"BrainInterface"));

    let (input, value) = prefix_device_ns(br"\\./BrainInterface").unwrap();
    assert_eq!(input, b"");
    assert_eq!(value, WindowsPrefix::DeviceNS(b"BrainInterface"));

    let (input, value) = prefix_device_ns(br"\/.\BrainInterface").unwrap();
    assert_eq!(input, b"");
    assert_eq!(value, WindowsPrefix::DeviceNS(b"BrainInterface"));

    let (input, value) = prefix_device_ns(br"/\.\BrainInterface").unwrap();
    assert_eq!(input, b"");
    assert_eq!(value, WindowsPrefix::DeviceNS(b"BrainInterface"));

    let (input, value) = prefix_device_ns(br"\\.\BrainInterface\hello").unwrap();
    assert_eq!(input, br"\hello");
    assert_eq!(value, WindowsPrefix::DeviceNS(b"BrainInterface"));
}

#[test]
fn validate_prefix_unc() {
    prefix_unc(b"").unwrap_err();

    prefix_unc(br"server\share").unwrap_err();
    prefix_unc(br"\server\share").unwrap_err();

    let (input, value) = prefix_unc(br"\\server").unwrap();
    assert_eq!(input, b"");
    assert_eq!(value, WindowsPrefix::UNC(b"server", b""));

    let (input, value) = prefix_unc(br"\\server\").unwrap();
    assert_eq!(input, b"");
    assert_eq!(value, WindowsPrefix::UNC(b"server", b""));

    let (input, value) = prefix_unc(br"\\server\share").unwrap();
    assert_eq!(input, b"");
    assert_eq!(value, WindowsPrefix::UNC(b"server", b"share"));

    let (input, value) = prefix_unc(br"\\server/share").unwrap();
    assert_eq!(input, b"");
    assert_eq!(value, WindowsPrefix::UNC(b"server", b"share"));

    let (input, value) = prefix_unc(br"\/server\share").unwrap();
    assert_eq!(input, b"");
    assert_eq!(value, WindowsPrefix::UNC(b"server", b"share"));

    let (input, value) = prefix_unc(br"/\server\share").unwrap();
    assert_eq!(input, b"");
    assert_eq!(value, WindowsPrefix::UNC(b"server", b"share"));

    let (input, value) = prefix_unc(br"\\server\share\hello").unwrap();
    assert_eq!(input, br"\hello");
    assert_eq!(value, WindowsPrefix::UNC(b"server", b"share"));
}

#[test]
fn validate_prefix_disk() {
    prefix_disk(b"").unwrap_err();
    prefix_disk(b"1:").unwrap_err();
    prefix_disk(b"C").unwrap_err();
    prefix_disk(b"CC").unwrap_err();

    let (input, value) = prefix_disk(b"C:").unwrap();
    assert_eq!(input, b"");
    assert_eq!(value, WindowsPrefix::Disk(b'C'));

    let (input, value) = prefix_disk(b"c:").unwrap();
    assert_eq!(input, b"");
    assert_eq!(value, WindowsPrefix::Disk(b'c'));

    let (input, value) = prefix_disk(br"C:\path").unwrap();
    assert_eq!(input, br"\path");
    assert_eq!(value, WindowsPrefix::Disk(b'C'));
}

#[test]
fn parser_validate_root_dir() {
    // Unix
    unix_root_dir(b"").unwrap_err();
    unix_root_dir(&[b'a', UNIX_SEPARATOR as u8]).unwrap_err();
    let (input, value) = unix_root_dir(&[UNIX_SEPARATOR as u8]).unwrap();
    assert_eq!(input, b"");
    assert_eq!(value, UnixComponent::RootDir);
    let (input, value) = unix_root_dir(&[UNIX_SEPARATOR as u8, b'a', UNIX_SEPARATOR as u8]).unwrap();
    assert_eq!(input, &[b'a', UNIX_SEPARATOR as u8]);
    assert_eq!(value, UnixComponent::RootDir);

    // Windows
    let root_dir = normalizing_root_dir;
    root_dir(b"").unwrap_err();
    root_dir(&[b'a', WINDOWS_SEPARATOR as u8]).unwrap_err();
    let (input, value) = root_dir(&[WINDOWS_SEPARATOR as u8]).unwrap();
    assert_eq!(input, b"");
    assert_eq!(value, WindowsComponent::RootDir);
    let (input, value) = root_dir(&[WINDOWS_SEPARATOR as u8, b'a', WINDOWS_SEPARATOR as u8]).unwrap();
    assert_eq!(input, &[b'a', WINDOWS_SEPARATOR as u8]);
    assert_eq!(value, WindowsComponent::RootDir);
}

#[test]
fn parser_validate_cur_dir() {
    // Unix
    unix_cur_dir(b"").unwrap_err();
    unix_cur_dir(&[&[b'a'], CURRENT_DIR].concat()).unwrap_err();
    let (input, value) = unix_cur_dir(CURRENT_DIR).unwrap();
    assert_eq!(input, b"");
    assert_eq!(value, UnixComponent::CurDir);
    unix_cur_dir(&[CURRENT_DIR, &[b'.']].concat()).unwrap_err();
    unix_cur_dir(&[CURRENT_DIR, &[b'a']].concat()).unwrap_err();
    let input = &[CURRENT_DIR, &unix_sep(1), CURRENT_DIR].concat();
    let (input, value) = unix_cur_dir(input).unwrap();
    assert_eq!(input, &[&unix_sep(1), CURRENT_DIR].concat());
    assert_eq!(value, UnixComponent::CurDir);

    // Windows
    let cur_dir = normalizing_cur_dir;
    cur_dir(b"").unwrap_err();
    cur_dir(&[&[b'a'], CURRENT_DIR].concat()).unwrap_err();
    let (input, value) = cur_dir(CURRENT_DIR).unwrap();
    assert_eq!(input, b"");
    assert_eq!(value, WindowsComponent::CurDir);
    cur_dir(&[CURRENT_DIR, &[b'.']].concat()).unwrap_err();
    cur_dir(&[CURRENT_DIR, &[b'a']].concat()).unwrap_err();
    let input = &[CURRENT_DIR, &win_sep(1), CURRENT_DIR].concat();
    let (input, value) = cur_dir(input).unwrap();
    assert_eq!(input, &[&win_sep(1), CURRENT_DIR].concat());
    assert_eq!(value, WindowsComponent::CurDir);
}

#[test]
fn parser_validate_parent_dir() {
    // Unix
    unix_parent_dir(b"").unwrap_err();
    unix_parent_dir(&[&[b'a'], PARENT_DIR].concat()).unwrap_err();
    let (input, value) = unix_parent_dir(PARENT_DIR).unwrap();
    assert_eq!(input, b"");
    assert_eq!(value, UnixComponent::ParentDir);
    unix_parent_dir(&[PARENT_DIR, &[b'.']].concat()).unwrap_err();
    unix_parent_dir(&[PARENT_DIR, &[b'a']].concat()).unwrap_err();
    let input = &[PARENT_DIR, &unix_sep(1), PARENT_DIR].concat();
    let (input, value) = unix_parent_dir(input).unwrap();
    assert_eq!(input, &[&unix_sep(1), PARENT_DIR].concat());
    assert_eq!(value, UnixComponent::ParentDir);

    // Windows
    let parent_dir = normalizing_parent_dir;
    parent_dir(b"").unwrap_err();
    parent_dir(&[&[b'a'], PARENT_DIR].concat()).unwrap_err();
    let (input, value) = parent_dir(PARENT_DIR).unwrap();
    assert_eq!(input, b"");
    assert_eq!(value, WindowsComponent::ParentDir);
    parent_dir(&[PARENT_DIR, &[b'.']].concat()).unwrap_err();
    parent_dir(&[PARENT_DIR, &[b'a']].concat()).unwrap_err();
    let input = &[PARENT_DIR, &win_sep(1), PARENT_DIR].concat();
    let (input, value) = parent_dir(input).unwrap();
    assert_eq!(input, &[&win_sep(1), PARENT_DIR].concat());
    assert_eq!(value, WindowsComponent::ParentDir);
}

#[test]
fn parser_validate_normal() {
    // Unix
    unix_normal(b"").unwrap_err();
    unix_normal(&[UNIX_DISALLOWED_FILENAME_BYTES[0], b'a']).unwrap_err();
    let (input, value) = unix_normal(b"hello").unwrap();
    assert_eq!(input, b"");
    assert_eq!(value, UnixComponent::Normal(b"hello"));
    for byte in UNIX_DISALLOWED_FILENAME_BYTES {
        let input = [b'h', b'e', b'l', b'l', b'o', byte, b'm', b'o', b'r', b'e'];
        let (input, value) = unix_normal(&input).unwrap();
        assert_eq!(input, &[byte, b'm', b'o', b'r', b'e']);
        assert_eq!(value, UnixComponent::Normal(b"hello"));
    }

    // Windows
    let normal = normalizing_normal;
    normal(b"").unwrap_err();
    normal(br"\a").unwrap_err();
    let (input, value) = normal(b"hello").unwrap();
    assert_eq!(input, b"");
    assert_eq!(value, WindowsComponent::Normal(b"hello"));
    let (input, value) = normal(br"abc\").unwrap();
    assert_eq!(input, br"\");
    assert_eq!(value, WindowsComponent::Normal(b"abc"));
    let (input, value) = normal(br"abc/").unwrap();
    assert_eq!(input, br"/");
    assert_eq!(value, WindowsComponent::Normal(b"abc"));
    let (input, value) = normal(br"abc\").unwrap();
    assert_eq!(input, br"\");
    assert_eq!(value, WindowsComponent::Normal(b"abc"));
    let (input, value) = normal(br"abc/").unwrap();
    assert_eq!(input, b"/");
    assert_eq!(value, WindowsComponent::Normal(b"abc"));
}

#[test]
fn parser_validate_separator() {
    // Unix
    unix_separator(b"").unwrap_err();
    unix_separator(&[b'a', UNIX_SEPARATOR as u8]).unwrap_err();
    let (input, _) = unix_separator(&[UNIX_SEPARATOR as u8]).unwrap();
    assert_eq!(input, b"");
    let (input, _) = unix_separator(&[
        UNIX_SEPARATOR as u8,
        UNIX_DISALLOWED_FILENAME_BYTES[0],
        UNIX_SEPARATOR as u8,
    ])
    .unwrap();
    assert_eq!(input, &[UNIX_DISALLOWED_FILENAME_BYTES[0], UNIX_SEPARATOR as u8]);

    // Windows
    win_separator(true, b"").unwrap_err();
    win_separator(false, b"").unwrap_err();
    win_separator(true, &[b'a', WINDOWS_SEPARATOR as u8]).unwrap_err();
    win_separator(false, &[b'a', WINDOWS_SEPARATOR as u8]).unwrap_err();
    let (input, _) = win_separator(true, &[WINDOWS_SEPARATOR as u8]).unwrap();
    assert_eq!(input, b"");
    let (input, _) = win_separator(true, &[WINDOWS_ALT_SEPARATOR as u8]).unwrap();
    assert_eq!(input, b"");
    let _ = win_separator(false, &[WINDOWS_ALT_SEPARATOR as u8]).unwrap_err();
    let input = &[WINDOWS_SEPARATOR as u8, WINDOWS_SEPARATOR as u8];
    let (input, _) = win_separator(true, input).unwrap();
    assert_eq!(input, &[WINDOWS_SEPARATOR as u8]);
    let input = &[WINDOWS_ALT_SEPARATOR as u8, WINDOWS_ALT_SEPARATOR as u8];
    let (input, _) = win_separator(true, input).unwrap();
    assert_eq!(input, &[WINDOWS_ALT_SEPARATOR as u8]);
}

#[test]
fn validate_parse() {
    parse(b"").unwrap_err();
    parse(b"abc\0def").unwrap_err();

    let mut components = parse(&[UNIX_SEPARATOR as u8]).unwrap();
    assert_eq!(components.next(), Some(UnixComponent::RootDir));
    assert_eq!(components.next(), None);

    let mut components = parse(CURRENT_DIR).unwrap();
    assert_eq!(components.next(), Some(UnixComponent::CurDir));
    assert_eq!(components.next(), None);

    let mut components = parse(PARENT_DIR).unwrap();
    assert_eq!(components.next(), Some(UnixComponent::ParentDir));
    assert_eq!(components.next(), None);

    let mut components = parse(b"hello").unwrap();
    assert_eq!(components.next(), Some(UnixComponent::Normal(b"hello")));
    assert_eq!(components.next(), None);
}

#[test]
fn validate_unix_components() {
    unix_components(b"").unwrap_err();
    unix_components(b"\0hello").unwrap_err();

    let (input, mut components) = unix_components(&[UNIX_SEPARATOR as u8]).unwrap();
    assert_eq!(input, b"");
    assert_eq!(components.next(), Some(UnixComponent::RootDir));
    assert_eq!(components.next(), None);

    let input = unix_sep(2);
    let (input, mut components) = unix_components(&input).unwrap();
    assert_eq!(input, b"");
    assert_eq!(components.next(), Some(UnixComponent::RootDir));
    assert_eq!(components.next(), None);

    let input = &[&[b'a'], unix_sep(1).as_slice(), &[b'b'], unix_sep(1).as_slice(), &[b'c']].concat();
    let (input, mut components) = unix_components(input).unwrap();
    assert_eq!(input, b"");
    assert_eq!(components.next(), Some(UnixComponent::Normal(b"a")));
    assert_eq!(components.next(), Some(UnixComponent::Normal(b"b")));
    assert_eq!(components.next(), Some(UnixComponent::Normal(b"c")));
    assert_eq!(components.next(), None);

    let input = &[CURRENT_DIR, unix_sep(1).as_slice(), &[b'b'], unix_sep(1).as_slice(), &[b'c']].concat();
    let (input, mut components) = unix_components(input).unwrap();
    assert_eq!(input, b"");
    assert_eq!(components.next(), Some(UnixComponent::CurDir));
    assert_eq!(components.next(), Some(UnixComponent::Normal(b"b")));
    assert_eq!(components.next(), Some(UnixComponent::Normal(b"c")));
    assert_eq!(components.next(), None);

    let input = &[
        unix_sep(1).as_slice(),
        CURRENT_DIR,
        unix_sep(1).as_slice(),
        &[b'b'],
        unix_sep(1).as_slice(),
        &[b'c'],
    ]
    .concat();
    let (input, mut components) = unix_components(input).unwrap();
    assert_eq!(input, b"");
    assert_eq!(components.next(), Some(UnixComponent::RootDir));
    assert_eq!(components.next(), Some(UnixComponent::Normal(b"b")));
    assert_eq!(components.next(), Some(UnixComponent::Normal(b"c")));
    assert_eq!(components.next(), None);

    let input = &[&[b'a'], unix_sep(1).as_slice(), CURRENT_DIR, unix_sep(1).as_slice(), &[b'c']].concat();
    let (input, mut components) = unix_components(input).unwrap();
    assert_eq!(input, b"");
    assert_eq!(components.next(), Some(UnixComponent::Normal(b"a")));
    assert_eq!(components.next(), Some(UnixComponent::Normal(b"c")));
    assert_eq!(components.next(), None);

    let input = &[
        unix_sep(5).as_slice(),
        &[b'a'],
        unix_sep(3).as_slice(),
        CURRENT_DIR,
        unix_sep(2).as_slice(),
        PARENT_DIR,
        unix_sep(3).as_slice(),
    ]
    .concat();
    let (input, mut components) = unix_components(input).unwrap();
    assert_eq!(input, b"");
    assert_eq!(components.next(), Some(UnixComponent::RootDir));
    assert_eq!(components.next(), Some(UnixComponent::Normal(b"a")));
    assert_eq!(components.next(), Some(UnixComponent::ParentDir));
    assert_eq!(components.next(), None);
}

#[test]
fn validate_file_or_dir_name() {
    file_or_dir_name(b"").unwrap_err();
    file_or_dir_name(&UNIX_DISALLOWED_FILENAME_BYTES).unwrap_err();

    let (input, value) = file_or_dir_name(PARENT_DIR).unwrap();
    assert_eq!(input, b"");
    assert_eq!(value, UnixComponent::ParentDir);

    let (input, value) = file_or_dir_name(CURRENT_DIR).unwrap();
    assert_eq!(input, b"");
    assert_eq!(value, UnixComponent::CurDir);

    let (input, value) = file_or_dir_name(b"hello").unwrap();
    assert_eq!(input, b"");
    assert_eq!(value, UnixComponent::Normal(b"hello"));

    let (input, value) = file_or_dir_name(b".hello").unwrap();
    assert_eq!(input, b"");
    assert_eq!(value, UnixComponent::Normal(b".hello"));

    let (input, value) = file_or_dir_name(b"..hello").unwrap();
    assert_eq!(input, b"");
    assert_eq!(value, UnixComponent::Normal(b"..hello"));

    let (input, value) = file_or_dir_name(b"...").unwrap();
    assert_eq!(input, b"");
    assert_eq!(value, UnixComponent::Normal(b"..."));
}
