//! MSBuild XML, lexically: a syntax highlighter and a navigable-token
//! scanner. Single linear scans over bytes, no XML parse, so malformed and
//! preprocessed content survives. Offsets are UTF-8 bytes; every delimiter
//! matched is ASCII, so slices land on char boundaries.

pub mod detect;
pub mod highlight;
pub mod inlays;
pub mod lex;
pub mod semantic;
pub mod tokens;

pub use detect::is_msbuild_file;
pub use highlight::{HighlightKind, Highlights};
pub use inlays::import_annotations;
pub use lex::{line_at, line_starts};
pub use semantic::{file_name, symbol_navigation, Navigation, Preference, SemanticIndex};
pub use tokens::{tokenize, Token, TokenKind};
