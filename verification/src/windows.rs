//! Windows paths: an optional prefix, then components separated by `\` (or `/`).
use vstd::prelude::*;

pub mod component;
pub mod components;
pub mod encoding;
pub mod extension_laws;
pub mod laws;
pub mod normalize_laws;
pub mod parse_laws;
pub mod push_laws;
pub mod parser;
pub mod prefix;
pub mod utf8;

pub use component::{WindowsComponent, WindowsComponentView};
pub use components::{parse, windows_components, WindowsComponents};
pub use encoding::WindowsEncoding;
pub use prefix::{WindowsPrefix, WindowsPrefixComponent, WindowsPrefixView};
pub use utf8::Utf8WindowsEncoding;

use crate::common::{Path, PathBuf, Utf8Path, Utf8PathBuf};

verus! {

/// Represents a Windows-specific [`Path`]
pub type WindowsPath<'a> = Path<'a, WindowsEncoding>;

/// Represents a Windows-specific [`PathBuf`]
pub type WindowsPathBuf = PathBuf<WindowsEncoding>;

/// Represents a Windows-specific [`Utf8Path`]
pub type Utf8WindowsPath<'a> = Utf8Path<'a, Utf8WindowsEncoding>;

/// Represents a Windows-specific [`Utf8PathBuf`]
pub type Utf8WindowsPathBuf = Utf8PathBuf<Utf8WindowsEncoding>;

} // verus!
