//! Items shared by the Unix and Windows encodings.
use vstd::prelude::*;

pub mod checked;
pub mod components;
pub mod encoding;
pub mod errors;
pub mod iter;
pub mod normalize;
pub mod path;
pub mod pathbuf;
pub mod reencode;
pub mod separator;
pub mod single_component;
pub mod utf8;
pub mod utf8_component;
pub mod utf8_components;

pub use checked::CheckedPathError;
pub use components::{ComponentKind, Components, Span};
pub use encoding::Encoding;
pub use errors::StripPrefixError;
pub use iter::{Ancestors, Iter};
pub use path::Path;
pub use pathbuf::PathBuf;
pub use single_component::{SingleComponentPath, SingleComponentPathBuf};
pub use separator::{ByteSeparator, CharSeparator, Separator, SeparatorRSplit, SeparatorSplit};
pub use utf8::{Utf8Encoding, Utf8Path, Utf8PathBuf};
pub use utf8_component::{Utf8Component, Utf8Components, Utf8PathComponent};
pub use utf8_components::{Utf8Ancestors, Utf8Iter};

verus! {

} // verus!
