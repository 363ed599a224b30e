//! Glob patterns over filesystem paths.
//!
//! A pattern string is parsed into a [`RawPattern`](parser::RawPattern), compiled into a
//! [`Pattern`] and matched against normalized paths, component by component. The
//! three-valued result of a match (matched, not matched, starved) is what lets a
//! directory traversal skip the subtrees in which nothing can match: see [`Walker`].
//!
//! Paths are given as bytes, both `/` and `\` part their components, and the prefixes
//! `/`, `C:` and `\\?\C:` are understood on every platform.
//!
//! Every function states its behaviour over the mathematical model of its arguments,
//! and the statements are machine-checked. What is believed of the regular-expression
//! engine stands in [`engine`].

pub mod compiler;
pub mod engine;
pub mod fs_walker;
pub mod grammar;
pub mod matcher;
pub mod opaque_os_str;
pub mod parser;
pub mod paths;
pub mod pattern;
pub mod text;
pub mod walker;

pub use crate::compiler::{compile_component, CaseSensitivity, CompileError, Component};
pub use crate::fs_walker::{FsWalker, NoIncomingDir};
pub use crate::matcher::{match_components, PatternMatchResult};
pub use crate::opaque_os_str::{OpaqueOsStr, StripPattern};
pub use crate::parser::{
    parse_pattern, CharacterClass, CharsMatcher, ParseError, ParseErrorKind, RawComponent,
    RawPattern, SingleCharMatcher,
};
pub use crate::paths::{
    normalize_path, strip_windows_drive, InvalidWindowsDriveLetter, NormalizedPath, PathPrefix,
    UnsupportedWindowsPrefix, WindowsDrive,
};
pub use crate::pattern::{build_common_root_dir, Pattern, PatternError, PatternOpts};
pub use crate::walker::{diff_path, WalkRequest, Walker};
