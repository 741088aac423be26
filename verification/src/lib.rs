//! Directory listing: entry classification, permission notation, identity
//! lookup and column alignment, with machine-checked contracts.

pub mod color;
pub mod error;
pub mod file;
pub mod helper;
pub mod identity;
pub mod listing;
pub mod order;
pub mod parser;
pub mod permission;
pub mod render;
pub mod sort;
pub mod text;

pub use crate::color::{paint, Color};
pub use crate::error::{LSError, LSErrorKind};
pub use crate::file::{to_file, EntryMetadata, EntryType, File, Kind, RawEntry};
pub use crate::helper::pad_strings;
pub use crate::identity::{resolve_group, resolve_user, Database};
pub use crate::listing::get_files;
pub use crate::parser::{parse, usage, CommandOptions, Invocation, ParserError, _parse};
pub use crate::permission::to_unix_permission;
pub use crate::render::{display_long, display_short, to_file_name};
