use typed_path::common::Path;
use typed_path::unix::{UnixComponent, UnixComponents, UnixEncoding};
use typed_path::windows::parser::Parser as WindowsParser;
use typed_path::windows::{
    parse as windows_parse, windows_components, WindowsComponent, WindowsComponents,
    WindowsEncoding, WindowsPrefix, WindowsPrefixComponent,
};

#[test]
fn windows_components_report_their_prefix() {
    let c = WindowsComponents::new(br"C:\a");
    assert!(c.has_prefix());
    assert!(c.has_disk_prefix());
    assert!(!c.has_unc_prefix());
    assert_eq!(c.prefix_len(), 2);
    assert_eq!(c.prefix_kind(), Some(WindowsPrefix::Disk(b'C')));
    assert_eq!(c.prefix().unwrap().as_bytes(), b"C:");
    assert!(!c.has_implicit_root());
    assert!(c.has_physical_root());
    assert!(c.is_absolute());
    assert!(c.has_root());
    assert!(!c.is_only_disk());
    assert!(!c.has_any_verbatim_prefix());

    let c = WindowsComponents::new(b"C:");
    assert!(c.is_only_disk());
    assert!(!c.has_root());

    let c = WindowsComponents::new(br"\\?\pictures\a");
    assert!(c.has_verbatim_prefix());
    assert!(c.has_any_verbatim_prefix());
    assert!(c.has_implicit_root());
    assert!(c.has_root());
    assert!(c.has_physical_root());

    let c = WindowsComponents::new(br"\\?\UNC\server\share");
    assert!(c.has_verbatim_unc_prefix());
    assert!(c.has_any_verbatim_prefix());
    assert!(!c.has_physical_root());

    let c = WindowsComponents::new(br"\\?\C:\");
    assert!(c.has_verbatim_disk_prefix());
    assert!(c.has_any_verbatim_prefix());

    let c = WindowsComponents::new(br"\\.\BrainInterface");
    assert!(c.has_device_ns_prefix());
    assert!(!c.has_any_verbatim_prefix());

    let c = WindowsComponents::new(br"\\server\share");
    assert!(c.has_unc_prefix());
    assert!(!c.has_any_verbatim_prefix());
    assert!(c.has_root());

    let c = WindowsComponents::new(br"\a");
    assert!(!c.has_prefix());
    assert_eq!(c.prefix_len(), 0);
    assert!(c.has_root());
    assert!(!c.is_absolute());
    assert!(c.has_physical_root());
    assert_eq!(c.peek_front(), Some(WindowsComponent::RootDir));
}

#[test]
fn windows_components_iterate_from_both_ends() {
    let mut c = WindowsComponents::new(br"C:\a\b");
    assert_eq!(c.next_back(), Some(WindowsComponent::Normal(b"b")));
    assert_eq!(c.as_bytes(), br"C:\a");
    assert_eq!(c.next_back(), Some(WindowsComponent::Normal(b"a")));
    assert_eq!(c.next_back(), Some(WindowsComponent::RootDir));
    assert!(matches!(c.next_back(), Some(WindowsComponent::Prefix(_))));
    assert_eq!(c.next_back(), None);

    let mut c = WindowsComponents::new(br"a\b");
    assert_eq!(c.next(), Some(WindowsComponent::Normal(b"a")));
    assert_eq!(c.as_path::<WindowsEncoding>().as_bytes(), b"b");
}

#[test]
fn windows_parse_requires_the_whole_input() {
    let (rest, mut comps) = windows_components(br"a\b").unwrap();
    assert_eq!(rest, b"");
    assert_eq!(comps.next(), Some(WindowsComponent::Normal(b"a")));
    assert!(windows_components(b"").is_err());
    assert!(windows_parse(br"C:\a\").is_ok());
    let mut comps = windows_parse(br".\a").unwrap();
    assert_eq!(comps.next(), Some(WindowsComponent::CurDir));
}

#[test]
fn windows_parser_reads_back_the_last_component() {
    let mut parser = WindowsParser::new(br"C:\a\b");
    assert_eq!(parser.next_back(), Ok(WindowsComponent::Normal(b"b")));
    assert_eq!(parser.remaining(), br"C:\a");
    assert!(parser.has_more());
    let mut parser = WindowsParser::new(b"");
    assert!(parser.next_back().is_err());
    assert!(!parser.has_more());
}

#[test]
fn components_parse_single_components() {
    assert_eq!(UnixComponent::try_from(b"file"), Ok(UnixComponent::Normal(b"file")));
    assert_eq!(UnixComponent::try_from(b"/"), Ok(UnixComponent::RootDir));
    assert!(UnixComponent::try_from(b"/file").is_err());
    assert!(UnixComponent::try_from(b"").is_err());

    assert_eq!(WindowsComponent::try_from(b"file"), Ok(WindowsComponent::Normal(b"file")));
    assert!(WindowsComponent::try_from(br"\file").is_err());
    assert!(matches!(WindowsComponent::try_from(b"c:"), Ok(WindowsComponent::Prefix(_))));

    let p = WindowsPrefixComponent::try_from(br"\\server\share").unwrap();
    assert_eq!(p.kind(), WindowsPrefix::UNC(b"server", b"share"));
    assert!(WindowsPrefixComponent::try_from(br"C:\a").is_err());
    assert!(WindowsPrefixComponent::try_from(b"a").is_err());
}

#[test]
fn windows_components_are_valid_unless_names_hold_disallowed_bytes() {
    assert!(WindowsComponent::try_from(b"c:").unwrap().is_valid());
    assert!(WindowsComponent::RootDir.is_valid());
    assert!(WindowsComponent::ParentDir.is_valid());
    assert!(WindowsComponent::CurDir.is_valid());
    assert!(WindowsComponent::Normal(b"abc").is_valid());
    assert!(!WindowsComponent::Normal(b"|").is_valid());
    assert!(!WindowsComponent::Normal(b"a?b").is_valid());
}

#[test]
fn components_as_paths() {
    let p: Path<UnixEncoding> = UnixComponent::Normal(b"abc").as_path();
    assert_eq!(p.as_bytes(), b"abc");
    let p: Path<WindowsEncoding> = WindowsComponent::RootDir.as_path();
    assert_eq!(p.as_bytes(), br"\");
    let mut comps = UnixComponents::new(b"a/b");
    assert_eq!(comps.next(), Some(UnixComponent::Normal(b"a")));
    assert_eq!(comps.as_path::<UnixEncoding>().as_bytes(), b"b");
}

#[test]
fn windows_prefix_lengths_and_kinds() {
    assert_eq!(WindowsPrefix::Verbatim(b"pictures").len(), br"\\?\pictures".len());
    assert_eq!(WindowsPrefix::VerbatimUNC(b"server", b"share").len(), br"\\?\UNC\server\share".len());
    assert_eq!(WindowsPrefix::VerbatimUNC(b"server", b"").len(), br"\\?\UNC\server".len());
    assert_eq!(WindowsPrefix::VerbatimDisk(b'C').len(), br"\\?\C:".len());
    assert_eq!(WindowsPrefix::DeviceNS(b"BrainInterface").len(), br"\\.\BrainInterface".len());
    assert_eq!(WindowsPrefix::UNC(b"server", b"share").len(), br"\\server\share".len());
    assert_eq!(WindowsPrefix::Disk(b'C').len(), b"C:".len());
    assert!(WindowsPrefix::Verbatim(b"pictures").is_verbatim());
    assert!(WindowsPrefix::VerbatimUNC(b"server", b"share").is_verbatim());
    assert!(WindowsPrefix::VerbatimDisk(b'C').is_verbatim());
    assert!(!WindowsPrefix::DeviceNS(b"BrainInterface").is_verbatim());
    assert!(!WindowsPrefix::UNC(b"server", b"share").is_verbatim());
    assert!(!WindowsPrefix::Disk(b'C').is_verbatim());
}

#[test]
fn prefix_components_compare_by_their_parsed_prefix() {
    let a = WindowsPrefixComponent::try_from(br"\\server\share").unwrap();
    let b = WindowsPrefixComponent::try_from(br"//server/share").unwrap();
    assert_eq!(a, b);
    let c = WindowsPrefixComponent::try_from(br"\\server\other").unwrap();
    assert_ne!(a, c);
}

#[test]
fn unix_components_report_their_bytes() {
    assert_eq!(UnixComponent::RootDir.as_bytes(), b"/");
    assert_eq!(UnixComponent::CurDir.as_bytes(), b".");
    assert_eq!(UnixComponent::ParentDir.as_bytes(), b"..");
    assert_eq!(UnixComponent::Normal(b"abc").len(), 3);
    assert!(UnixComponent::Normal(b"").is_empty());
    assert!(UnixComponent::root().is_root());
    assert!(UnixComponent::parent().is_parent());
    assert!(UnixComponent::current().is_current());
    assert!(UnixComponent::Normal(b"x").is_normal());
    assert_eq!(WindowsComponent::RootDir.as_bytes(), br"\");
    assert_eq!(WindowsComponent::Normal(b"abc").len(), 3);
    assert!(WindowsComponent::try_from(b"c:").unwrap().is_prefix());
    assert_eq!(
        WindowsComponent::try_from(b"c:").unwrap().prefix_kind(),
        Some(WindowsPrefix::Disk(b'c'))
    );
}

#[test]
fn unix_parser_from_the_back_reverses_the_front() {
    let input: &[u8] = b"./a/b/";
    let mut front = Vec::new();
    let mut p = typed_path::unix::parser::Parser::new(input);
    while let Ok(c) = p.next_front() {
        front.push(c.as_bytes().to_vec());
    }
    let mut back = Vec::new();
    let mut p = typed_path::unix::parser::Parser::new(input);
    while let Ok(c) = p.next_back() {
        back.push(c.as_bytes().to_vec());
    }
    assert_eq!(front, vec![b".".to_vec(), b"a".to_vec(), b"b".to_vec()]);
    back.reverse();
    assert_eq!(back, front);
}

#[test]
fn windows_parser_from_the_back_reverses_the_front() {
    for input in [&br"C:\a\.\b\"[..], br"\\server\share\x", br"a/b", br"\\?\C:\a\b"] {
        let mut front = Vec::new();
        let mut p = typed_path::windows::parser::Parser::new(input);
        while let Ok(c) = p.next_front() {
            front.push(c.as_bytes().to_vec());
        }
        let mut back = Vec::new();
        let mut p = typed_path::windows::parser::Parser::new(input);
        while let Ok(c) = p.next_back() {
            back.push(c.as_bytes().to_vec());
        }
        back.reverse();
        assert_eq!(back, front);
    }
}
