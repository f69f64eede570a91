//! Unix paths: components separated by `/`.
use vstd::prelude::*;

pub mod component;
pub mod components;
pub mod encoding;
pub mod extension_laws;
pub mod hash;
pub mod laws;
pub mod parse_laws;
pub mod push_laws;
pub mod parser;
pub mod utf8;

pub use component::{UnixComponent, UnixComponentView};
pub use components::{parse, unix_components, UnixComponents};
pub use encoding::UnixEncoding;
pub use utf8::Utf8UnixEncoding;

use crate::common::{Path, PathBuf, Utf8Path, Utf8PathBuf};

verus! {

/// Represents a Unix-specific [`Path`]
pub type UnixPath<'a> = Path<'a, UnixEncoding>;

/// Represents a Unix-specific [`PathBuf`]
pub type UnixPathBuf = PathBuf<UnixEncoding>;

/// Represents a Unix-specific [`Utf8Path`]
pub type Utf8UnixPath<'a> = Utf8Path<'a, Utf8UnixEncoding>;

/// Represents a Unix-specific [`Utf8PathBuf`]
pub type Utf8UnixPathBuf = Utf8PathBuf<Utf8UnixEncoding>;

} // verus!
